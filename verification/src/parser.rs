//! Line parser: extracts a `(path, date)` pair from one raw record of the
//! form `<url>,<timestamp>`.
//!
//! The grammar is deliberately heuristic, mirroring the documented input
//! assumptions: the field separator is the *last* comma of the line, the path
//! starts at the first `/` after the first `://`, the url must be valid
//! UTF-8 text, and the date is the first 10 bytes of the timestamp field.

use vstd::prelude::*;

use crate::bytes;
use crate::bytes::{find_byte, rfind_byte_spec, COLON, COMMA, SLASH};

verus! {

/// Number of bytes of the UTF-8 sequence introduced by first byte `b0`,
/// or 0 if `b0` can not start a sequence.
pub open spec fn utf8_width(b0: u8) -> int {
    if b0 < 0x80 {
        1
    } else if 0xC2 <= b0 && b0 <= 0xDF {
        2
    } else if 0xE0 <= b0 && b0 <= 0xEF {
        3
    } else if 0xF0 <= b0 && b0 <= 0xF4 {
        4
    } else {
        0
    }
}

pub open spec fn is_cont(b: u8) -> bool {
    0x80 <= b && b <= 0xBF
}

/// Continuation-byte constraints for the sequence starting at `i`, assuming
/// `utf8_width(s[i])` bytes are available.
pub open spec fn utf8_seq_ok_at(s: Seq<u8>, i: int) -> bool {
    let w = utf8_width(s[i]);
    if w == 1 {
        true
    } else if w == 2 {
        is_cont(s[i + 1])
    } else if w == 3 {
        is_cont(s[i + 1]) && is_cont(s[i + 2]) && (s[i] == 0xE0 ==> s[i + 1] >= 0xA0) && (s[i]
            == 0xED ==> s[i + 1] <= 0x9F)
    } else {
        is_cont(s[i + 1]) && is_cont(s[i + 2]) && is_cont(s[i + 3]) && (s[i] == 0xF0 ==> s[i + 1]
            >= 0x90) && (s[i] == 0xF4 ==> s[i + 1] <= 0x8F)
    }
}

/// `s[i..]` is a sequence of well-formed UTF-8 encoded scalar values.
pub open spec fn is_utf8_from(s: Seq<u8>, i: int) -> bool
    decreases s.len() - i,
{
    if i >= s.len() {
        true
    } else {
        let w = utf8_width(s[i]);
        if w == 0 {
            false
        } else if i + w > s.len() {
            false
        } else if !utf8_seq_ok_at(s, i) {
            false
        } else {
            is_utf8_from(s, i + w)
        }
    }
}

/// `s` is well-formed UTF-8.
pub open spec fn is_utf8(s: Seq<u8>) -> bool {
    is_utf8_from(s, 0)
}

/// UTF-8 validity check, proved against `is_utf8`.
pub fn utf8_check(s: &[u8]) -> (r: bool)
    ensures
        r == is_utf8(s@),
{
    let mut i: usize = 0;
    while i < s.len()
        invariant
            i <= s@.len(),
            is_utf8(s@) == is_utf8_from(s@, i as int),
        decreases s@.len() - i,
    {
        let b0 = s[i];
        let w: usize = if b0 < 0x80 {
            1
        } else if 0xC2 <= b0 && b0 <= 0xDF {
            2
        } else if 0xE0 <= b0 && b0 <= 0xEF {
            3
        } else if 0xF0 <= b0 && b0 <= 0xF4 {
            4
        } else {
            return false;
        };
        if w > s.len() - i {
            return false;
        }
        if w >= 2 {
            let b1 = s[i + 1];
            if !(0x80 <= b1 && b1 <= 0xBF) {
                return false;
            }
            if w == 3 {
                if b0 == 0xE0 && b1 < 0xA0 {
                    return false;
                }
                if b0 == 0xED && b1 > 0x9F {
                    return false;
                }
            }
            if w == 4 {
                if b0 == 0xF0 && b1 < 0x90 {
                    return false;
                }
                if b0 == 0xF4 && b1 > 0x8F {
                    return false;
                }
            }
            if w >= 3 {
                let b2 = s[i + 2];
                if !(0x80 <= b2 && b2 <= 0xBF) {
                    return false;
                }
            }
            if w == 4 {
                let b3 = s[i + 3];
                if !(0x80 <= b3 && b3 <= 0xBF) {
                    return false;
                }
            }
        }
        i += w;
    }
    true
}

/// Index of the first `://` in `s`, or `-1` if there is none.
pub open spec fn find_scheme_spec(s: Seq<u8>) -> int
    decreases s.len(),
{
    if s.len() < 3 {
        -1
    } else if s[0] == COLON && s[1] == SLASH && s[2] == SLASH {
        0
    } else {
        let r = find_scheme_spec(s.skip(1));
        if r < 0 {
            -1
        } else {
            1 + r
        }
    }
}

/// `find_scheme_spec` is pinned down by its characteristic properties.
pub proof fn lemma_find_scheme_is(s: Seq<u8>, k: int)
    requires
        -1 <= k,
        k >= 0 ==> k + 3 <= s.len() && s[k] == COLON && s[k + 1] == SLASH && s[k + 2] == SLASH,
        k == -1 ==> forall|i: int|
            0 <= i && i + 3 <= s.len() ==> !(#[trigger] s[i] == COLON && s[i + 1] == SLASH && s[i
                + 2] == SLASH),
        k >= 0 ==> forall|i: int|
            0 <= i < k ==> !(#[trigger] s[i] == COLON && s[i + 1] == SLASH && s[i + 2] == SLASH),
    ensures
        find_scheme_spec(s) == k,
    decreases s.len(),
{
    if s.len() < 3 {
        assert(k == -1);
    } else if s[0] == COLON && s[1] == SLASH && s[2] == SLASH {
        assert(k == 0);
    } else {
        assert(forall|i: int| 1 <= i < s.len() ==> s.skip(1)[i - 1] == s[i]);
        if k == -1 {
            assert forall|i: int|
                0 <= i && i + 3 <= s.skip(1).len() implies !(#[trigger] s.skip(1)[i] == COLON
                && s.skip(1)[i + 1] == SLASH && s.skip(1)[i + 2] == SLASH) by {
                assert(s.skip(1)[i] == s[i + 1]);
                assert(s.skip(1)[i + 1] == s[i + 2]);
                assert(s.skip(1)[i + 2] == s[i + 3]);
            }
            lemma_find_scheme_is(s.skip(1), -1);
        } else {
            assert(k >= 1);
            assert forall|i: int|
                0 <= i < k - 1 implies !(#[trigger] s.skip(1)[i] == COLON && s.skip(1)[i + 1]
                == SLASH && s.skip(1)[i + 2] == SLASH) by {
                assert(s.skip(1)[i] == s[i + 1]);
                assert(s.skip(1)[i + 1] == s[i + 2]);
                assert(s.skip(1)[i + 2] == s[i + 3]);
            }
            lemma_find_scheme_is(s.skip(1), k - 1);
        }
    }
}

/// Position of the first `://` in `s`, if any.
pub fn find_scheme(s: &[u8]) -> (r: Option<usize>)
    ensures
        match r {
            Some(i) => i as int == find_scheme_spec(s@) && i + 3 <= s@.len(),
            None => find_scheme_spec(s@) == -1,
        },
{
    if s.len() < 3 {
        proof {
            lemma_find_scheme_is(s@, -1);
        }
        return None;
    }
    let mut i: usize = 0;
    while i <= s.len() - 3
        invariant
            s@.len() >= 3,
            i <= s@.len(),
            forall|j: int|
                0 <= j < i ==> !(#[trigger] s@[j] == COLON && s@[j + 1] == SLASH && s@[j + 2]
                    == SLASH),
        decreases s@.len() - i,
    {
        if s[i] == COLON && s[i + 1] == SLASH && s[i + 2] == SLASH {
            proof {
                lemma_find_scheme_is(s@, i as int);
            }
            return Some(i);
        }
        i += 1;
    }
    proof {
        lemma_find_scheme_is(s@, -1);
    }
    None
}

/// What the Line Parser yields for one line (without its trailing newline):
/// `None` if the line is empty, has no comma, its url part is not UTF-8 or
/// has no `://` followed by a `/`, or its timestamp part is shorter than 10
/// bytes; otherwise the path (from the first `/` after `://` up to the last
/// comma) and the first 10 bytes of the timestamp.
pub open spec fn spec_parse_line(line: Seq<u8>) -> Option<(Seq<u8>, Seq<u8>)> {
    if line.len() == 0 {
        None
    } else {
        let c = rfind_byte_spec(line, COMMA);
        if c < 0 {
            None
        } else {
            let url = line.take(c);
            let datetime = line.skip(c + 1);
            if !is_utf8(url) {
                None
            } else {
                let i = find_scheme_spec(url);
                if i < 0 {
                    None
                } else {
                    let rel = find_byte(url.skip(i + 3), SLASH);
                    if rel == url.skip(i + 3).len() {
                        None
                    } else if datetime.len() < 10 {
                        None
                    } else {
                        Some((url.skip(i + 3 + rel), datetime.take(10)))
                    }
                }
            }
        }
    }
}

/// Parses one record line into its owned `(path, date)` pair, exactly as
/// `spec_parse_line` describes.
pub fn parse_line(line: &[u8]) -> (r: Option<(Vec<u8>, Vec<u8>)>)
    ensures
        match r {
            Some(pd) => spec_parse_line(line@) == Some((pd.0@, pd.1@)),
            None => spec_parse_line(line@) is None,
        },
{
    if line.len() == 0 {
        return None;
    }
    let c = match bytes::rfind_byte(line, COMMA) {
        Some(c) => c,
        None => {
            return None;
        },
    };
    let url = vstd::slice::slice_subrange(line, 0, c);
    proof {
        assert(url@ =~= line@.take(c as int));
    }
    if !utf8_check(url) {
        return None;
    }
    let i = match find_scheme(url) {
        Some(i) => i,
        None => {
            return None;
        },
    };
    let rel = bytes::find_byte_from(url, i + 3, SLASH);
    if rel == url.len() {
        proof {
            assert(rel - (i + 3) == url@.skip(i as int + 3).len());
        }
        return None;
    }
    if line.len() - (c + 1) < 10 {
        return None;
    }
    let path = bytes::copy_range(line, rel, c);
    let date = bytes::copy_range(line, c + 1, c + 11);
    proof {
        let cs = c as int;
        let url_s = line@.take(cs);
        let is = i as int;
        let rel_rel = find_byte(url_s.skip(is + 3), SLASH);
        assert(rel as int == is + 3 + rel_rel);
        assert(path@ =~= url_s.skip(is + 3 + rel_rel));
        assert(line@.skip(cs + 1).len() == line@.len() - cs - 1);
        assert(date@ =~= line@.skip(cs + 1).take(10));
    }
    Some((path, date))
}

} // verus!
