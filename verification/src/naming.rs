//! Slugs and identifiers derived from free text: the file-name stem of a
//! note and the normalized ids of libraries and plugins.

use vstd::prelude::*;

use crate::text::chars_vec;
use crate::text::string_from_chars;
use crate::text::trim_chars;
use crate::text::spec_trim;
use crate::text::spec_is_ascii_digit;
use crate::text::ascii_lower_c;
use crate::text::spec_ascii_lower;
use crate::ingest::spec_utf8_len;

verus! {

/// The Unicode alphanumeric property, as `char::is_alphanumeric` decides
/// it.
pub uninterp spec fn is_unicode_alnum(c: char) -> bool;

/// Relies on `char::is_alphanumeric`: the Unicode letter and number
/// classes, of which the ASCII letters and digits are members; the
/// outcome depends on the character alone.
#[verifier::external_body]
fn char_is_alphanumeric(c: char) -> (r: bool)
    ensures
        r == is_unicode_alnum(c),
        spec_is_ascii_digit(c) ==> r,
        'a' <= c && c <= 'z' ==> r,
        'A' <= c && c <= 'Z' ==> r,
{
    c.is_alphanumeric()
}

/// A slug character: alphanumeric, underscore, dash and space survive,
/// anything else becomes an underscore.
pub open spec fn spec_slug_char(c: char) -> char {
    if is_unicode_alnum(c) || c == '_' || c == '-' || c == ' ' {
        c
    } else {
        '_'
    }
}

/// The file-name stem of a note: its first line (cut to thirty characters
/// when longer than thirty bytes), cleaned to slug characters, trimmed,
/// spaces underscored, and capped at forty characters; a blank first line
/// names the file untitled.
pub open spec fn spec_slug(content: Seq<char>) -> Seq<char> {
    let line = spec_trim(first_line_of(content));
    let title = if line.len() == 0 {
        seq!['\u{672A}', '\u{547D}', '\u{540D}']
    } else if byte_len(line) > 30 {
        line.take(
            if line.len() <= 30 {
                line.len() as int
            } else {
                30
            },
        )
    } else {
        line
    };
    let cleaned = spec_trim(title.map_values(|c: char| spec_slug_char(c)));
    cleaned.map_values(
        |c: char|
            if c == ' ' {
                '_'
            } else {
                c
            },
    ).take(
        if cleaned.len() <= 40 {
            cleaned.len() as int
        } else {
            40
        },
    )
}

pub open spec fn first_line_of(s: Seq<char>) -> Seq<char>
    decreases s.len(),
{
    if s.len() == 0 {
        s
    } else if s[0] == '\n' {
        Seq::empty()
    } else {
        seq![s[0]] + first_line_of(s.skip(1))
    }
}

pub open spec fn byte_len(s: Seq<char>) -> int {
    crate::ingest::spec_utf8_total(s)
}

/// Build the file-name stem of a note.
pub fn slug_from_content(content: &String) -> (r: String)
    ensures
        r@ == spec_slug(content@),
{
    let chars = chars_vec(content.as_str());
    // the first line
    let mut line: Vec<char> = Vec::new();
    let mut i: usize = 0;
    proof {
        lemma_first_line(chars@, 0);
    }
    while i < chars.len() && chars[i] != '\n'
        invariant
            chars@ == content@,
            i <= chars@.len(),
            line@.len() == i,
            forall|j: int| 0 <= j < i ==> line@[j] == chars@[j] && chars@[j] != '\n',
            first_line_of(chars@) == line@ + first_line_of(chars@.skip(i as int)),
        decreases chars@.len() - i,
    {
        let c = chars[i];
        proof {
            assert(chars@.skip(i as int)[0] == c);
            assert(chars@.skip(i as int).skip(1) =~= chars@.skip(i + 1));
        }
        line.push(c);
        i = i + 1;
        proof {
            assert(line@ + first_line_of(chars@.skip(i as int)) =~= line@.drop_last() + (seq![c]
                + first_line_of(chars@.skip(i as int))));
            assert(first_line_of(chars@) =~= line@ + first_line_of(chars@.skip(i as int)));
        }
    }
    proof {
        if i == chars@.len() {
            assert(first_line_of(chars@.skip(i as int)) =~= Seq::<char>::empty());
        } else {
            assert(chars@.skip(i as int)[0] == chars@[i as int]);
            assert(first_line_of(chars@.skip(i as int)) =~= Seq::<char>::empty());
        }
        assert(first_line_of(chars@) =~= line@);
    }
    let trimmed = trim_chars(&line);
    // the title: the untitled name, the byte-capped cut, or the line whole
    let mut title: Vec<char> = Vec::new();
    if trimmed.len() == 0 {
        title.push('\u{672A}');
        title.push('\u{547D}');
        title.push('\u{540D}');
        proof {
            assert(title@ =~= seq!['\u{672A}', '\u{547D}', '\u{540D}']);
        }
    } else {
        let over30 = byte_len_exceeds_30(&trimmed);
        if over30 {
            let mut k: usize = 0;
            while k < 30 && k < trimmed.len()
                invariant
                    k <= 30,
                    k <= trimmed@.len(),
                    title@ == trimmed@.take(k as int),
                decreases 30 - k,
            {
                title.push(trimmed[k]);
                k = k + 1;
                proof {
                    assert(title@ =~= trimmed@.take(k as int));
                }
            }
            proof {
                assert(title@ =~= trimmed@.take(
                    if trimmed@.len() <= 30 {
                        trimmed@.len() as int
                    } else {
                        30
                    },
                ));
            }
        } else {
            let mut k: usize = 0;
            while k < trimmed.len()
                invariant
                    k <= trimmed@.len(),
                    title@ == trimmed@.take(k as int),
                decreases trimmed@.len() - k,
            {
                title.push(trimmed[k]);
                k = k + 1;
                proof {
                    assert(title@ =~= trimmed@.take(k as int));
                }
            }
            proof {
                assert(title@ =~= trimmed@);
            }
        }
    }
    // clean, trim, underscore, cap
    let mut cleaned_raw: Vec<char> = Vec::new();
    let mut p: usize = 0;
    while p < title.len()
        invariant
            p <= title@.len(),
            cleaned_raw@ == title@.take(p as int).map_values(|c: char| spec_slug_char(c)),
        decreases title@.len() - p,
    {
        let c = title[p];
        if char_is_alphanumeric(c) || c == '_' || c == '-' || c == ' ' {
            cleaned_raw.push(c);
        } else {
            cleaned_raw.push('_');
        }
        p = p + 1;
        proof {
            assert(cleaned_raw@ =~= title@.take(p as int).map_values(
                |c: char| spec_slug_char(c),
            ));
        }
    }
    proof {
        assert(title@.take(title@.len() as int) =~= title@);
    }
    let cleaned = trim_chars(&cleaned_raw);
    let cap: usize = if cleaned.len() <= 40 {
        cleaned.len()
    } else {
        40
    };
    let mut out: Vec<char> = Vec::new();
    let mut q: usize = 0;
    while q < cap
        invariant
            cap <= cleaned@.len(),
            q <= cap,
            out@ == cleaned@.take(q as int).map_values(
                |c: char|
                    if c == ' ' {
                        '_'
                    } else {
                        c
                    },
            ),
        decreases cap - q,
    {
        let c = cleaned[q];
        if c == ' ' {
            out.push('_');
        } else {
            out.push(c);
        }
        q = q + 1;
        proof {
            assert(out@ =~= cleaned@.take(q as int).map_values(
                |c: char|
                    if c == ' ' {
                        '_'
                    } else {
                        c
                    },
            ));
        }
    }
    proof {
        assert(out@ =~= cleaned@.map_values(
            |c: char|
                if c == ' ' {
                    '_'
                } else {
                    c
                },
        ).take(cap as int));
    }
    string_from_chars(&out)
}

proof fn lemma_first_line(s: Seq<char>, i: int)
    requires
        i == 0,
    ensures
        first_line_of(s) == Seq::<char>::empty() + first_line_of(s.skip(0)),
{
    assert(s.skip(0) =~= s);
    assert(Seq::<char>::empty() + first_line_of(s) =~= first_line_of(s));
}

/// Every character is at least one byte wide.
proof fn lemma_byte_len_ge_len(s: Seq<char>)
    ensures
        byte_len(s) >= s.len(),
    decreases s.len(),
{
    if s.len() > 0 {
        lemma_byte_len_ge_len(s.skip(1));
        assert(spec_utf8_len(s[0]) >= 1);
    }
}

/// Whether the UTF-8 byte length of a character vector exceeds thirty.
fn byte_len_exceeds_30(v: &Vec<char>) -> (r: bool)
    ensures
        r == (byte_len(v@) > 30),
{
    let mut total: u64 = 0;
    let mut i: usize = 0;
    while i < v.len()
        invariant
            i <= v@.len(),
            total <= 31,
            total == if crate::ingest::spec_utf8_total(v@.take(i as int)) <= 31 {
                crate::ingest::spec_utf8_total(v@.take(i as int))
            } else {
                31int
            },
        decreases v@.len() - i,
    {
        if total > 30 {
            proof {
                crate::ingest::lemma_utf8_total_grows_pub(v@, i as int);
            }
            return true;
        }
        let c = v[i];
        proof {
            crate::text::lemma_char_value_range(c);
        }
        let cl: u64 = if (c as u32) < 0x80 {
            1
        } else if (c as u32) < 0x800 {
            2
        } else if (c as u32) < 0x10000 {
            3
        } else {
            4
        };
        proof {
            crate::ingest::lemma_utf8_total_step_pub(v@, i as int);
        }
        total = if total + cl <= 31 {
            total + cl
        } else {
            31
        };
        i = i + 1;
    }
    proof {
        assert(v@.take(v@.len() as int) =~= v@);
    }
    total > 30
}

/// One step of id normalization: an ASCII alphanumeric joins the id in
/// lowercase; any other character contributes one dash, never leading and
/// never doubled.
pub open spec fn spec_norm_step(acc: (Seq<char>, bool), c: char) -> (Seq<char>, bool) {
    if crate::text::spec_is_ascii_alphanumeric(spec_ascii_lower(c)) && (('a' <= spec_ascii_lower(c)
        && spec_ascii_lower(c) <= 'z') || spec_is_ascii_digit(c)) {
        (acc.0.push(spec_ascii_lower(c)), false)
    } else if !acc.1 && acc.0.len() > 0 {
        (acc.0.push('-'), true)
    } else {
        acc
    }
}

pub open spec fn spec_norm_fold(s: Seq<char>, acc: (Seq<char>, bool)) -> (Seq<char>, bool)
    decreases s.len(),
{
    if s.len() == 0 {
        acc
    } else {
        spec_norm_fold(s.skip(1), spec_norm_step(acc, s[0]))
    }
}

/// Trailing dashes dropped.
pub open spec fn drop_trailing_dashes(s: Seq<char>) -> Seq<char>
    decreases s.len(),
{
    if s.len() > 0 && s[s.len() - 1] == '-' {
        drop_trailing_dashes(s.take(s.len() - 1))
    } else {
        s
    }
}

/// The normalized id of a free-text name: lowercase ASCII alphanumerics,
/// runs of anything else collapsed to single dashes, trailing dashes
/// dropped. An empty result is the caller's cue to coin a stamped name.
pub open spec fn spec_normalize_id(name: Seq<char>) -> Seq<char> {
    drop_trailing_dashes(spec_norm_fold(spec_trim(name), (Seq::empty(), false)).0)
}

/// Normalize a library name to an id.
pub fn normalize_library_id(name: &String) -> (r: String)
    ensures
        r@ == spec_normalize_id(name@),
{
    let chars = chars_vec(name.as_str());
    let trimmed = trim_chars(&chars);
    let mut id: Vec<char> = Vec::new();
    let mut last_dash = false;
    let mut i: usize = 0;
    proof {
        assert(trimmed@.skip(0) =~= trimmed@);
    }
    while i < trimmed.len()
        invariant
            trimmed@ == spec_trim(name@),
            i <= trimmed@.len(),
            spec_norm_fold(trimmed@, (Seq::empty(), false)) == spec_norm_fold(
                trimmed@.skip(i as int),
                (id@, last_dash),
            ),
        decreases trimmed@.len() - i,
    {
        let c = trimmed[i];
        proof {
            assert(trimmed@.skip(i as int)[0] == c);
            assert(trimmed@.skip(i as int).skip(1) =~= trimmed@.skip(i + 1));
        }
        let lc = ascii_lower_c(c);
        if ('a' <= lc && lc <= 'z') || ('0' <= c && c <= '9') {
            id.push(lc);
            last_dash = false;
        } else if !last_dash && id.len() > 0 {
            id.push('-');
            last_dash = true;
        }
        i = i + 1;
    }
    proof {
        assert(trimmed@.skip(trimmed@.len() as int).len() == 0);
    }
    // drop trailing dashes
    proof {
        assert(id@.take(id@.len() as int) =~= id@);
    }
    let mut hi: usize = id.len();
    while hi > 0 && id[hi - 1] == '-'
        invariant
            hi <= id@.len(),
            drop_trailing_dashes(id@) == drop_trailing_dashes(id@.take(hi as int)),
        decreases hi,
    {
        proof {
            assert(id@.take(hi as int).take(hi - 1) =~= id@.take(hi - 1));
            assert(id@.take(hi as int)[hi - 1] == id@[hi - 1]);
        }
        hi = hi - 1;
    }
    let mut out: Vec<char> = Vec::new();
    let mut q: usize = 0;
    while q < hi
        invariant
            q <= hi <= id@.len(),
            out@ == id@.subrange(0, q as int),
        decreases hi - q,
    {
        out.push(id[q]);
        q = q + 1;
        proof {
            assert(out@ =~= id@.subrange(0, q as int));
        }
    }
    proof {
        if hi > 0 {
            assert(id@.take(hi as int)[hi - 1] == id@[hi - 1]);
            assert(drop_trailing_dashes(id@.take(hi as int)) =~= id@.take(hi as int));
        } else {
            assert(drop_trailing_dashes(id@.take(0)) =~= id@.take(0));
        }
        assert(out@ =~= drop_trailing_dashes(id@));
    }
    string_from_chars(&out)
}

/// Normalize a plugin id, by the same rule as library names.
pub fn normalize_plugin_id(id: &String) -> (r: String)
    ensures
        r@ == spec_normalize_id(id@),
{
    normalize_library_id(id)
}

/// A plugin id is acceptable when it is nonblank and already in
/// normalized form: lowercase letters, digits and dashes only.
pub fn validate_plugin_id(id: &String) -> (r: bool)
    ensures
        r == (spec_trim(id@).len() > 0 && spec_normalize_id(id@) == id@),
{
    let chars = chars_vec(id.as_str());
    let trimmed = trim_chars(&chars);
    if trimmed.len() == 0 {
        return false;
    }
    let normalized = normalize_plugin_id(id);
    crate::text::string_eq(&normalized, id)
}

} // verus!
