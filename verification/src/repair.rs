//! Defensive repair of truncated structured output.
//!
//! A model response is expected to carry one JSON document, possibly inside
//! a markdown code fence. The dominant failure is truncation when the model
//! runs out of output budget: the document stops mid-array, mid-object or
//! mid-string. The repair pass walks the text tracking bracket depth and
//! string-literal state, closes an open string literal, and appends the
//! missing closing brackets innermost first; no attempt is made to recover
//! a field cut off mid-token.

use vstd::prelude::*;

use crate::text::spec_trim;
use crate::text::trailing_spaces;
use crate::text::lemma_trailing_spaces_bound;
use crate::text::trim_chars;
use crate::text::chars_vec;
use crate::text::string_from_chars;
use crate::text::push_char;
use crate::text::starts_with_chars;
use crate::text::ends_with_chars;
use crate::text::u64_to_chars;

verus! {

/// Whether a text parses as one JSON document.
pub uninterp spec fn json_ok(s: Seq<char>) -> bool;

/// Relies on `serde_json::from_str::<serde_json::Value>`: whether the text
/// parses as one JSON document; the outcome depends on the text alone.
#[verifier::external_body]
fn json_parses(s: &str) -> (r: bool)
    ensures
        r == json_ok(s@),
{
    serde_json::from_str::<serde_json::Value>(s).is_ok()
}

/// The scanner state of the repair walk: whether the position is inside a
/// string literal, right after a backslash, the stack of unclosed opening
/// brackets, and the end of the last prefix on which the stack was empty.
#[verifier::ext_equal]
pub struct WalkState {
    pub in_string: bool,
    pub escaped: bool,
    pub opens: Seq<char>,
    pub last_safe: int,
}

pub open spec fn walk_init() -> WalkState {
    WalkState { in_string: false, escaped: false, opens: Seq::empty(), last_safe: 0 }
}

/// One character of the walk; `pos` is the character's index.
pub open spec fn walk_step(st: WalkState, c: char, pos: int) -> WalkState {
    if st.escaped {
        WalkState { escaped: false, ..st }
    } else if st.in_string {
        if c == '\\' {
            WalkState { escaped: true, ..st }
        } else if c == '"' {
            WalkState { in_string: false, ..st }
        } else {
            st
        }
    } else if c == '"' {
        WalkState { in_string: true, ..st }
    } else if c == '[' || c == '{' {
        WalkState { opens: st.opens.push(c), ..st }
    } else if c == ']' && st.opens.len() > 0 && st.opens.last() == '[' {
        let rest = st.opens.drop_last();
        WalkState {
            opens: rest,
            last_safe: if rest.len() == 0 {
                pos + 1
            } else {
                st.last_safe
            },
            ..st
        }
    } else if c == '}' && st.opens.len() > 0 && st.opens.last() == '{' {
        let rest = st.opens.drop_last();
        WalkState {
            opens: rest,
            last_safe: if rest.len() == 0 {
                pos + 1
            } else {
                st.last_safe
            },
            ..st
        }
    } else {
        st
    }
}

/// The walk over a whole text.
pub open spec fn walk(s: Seq<char>) -> WalkState
    decreases s.len(),
{
    if s.len() == 0 {
        walk_init()
    } else {
        walk_step(walk(s.drop_last()), s.last(), s.len() - 1)
    }
}

/// The closing bracket of an opening one.
pub open spec fn close_of(c: char) -> char {
    if c == '[' {
        ']'
    } else {
        '}'
    }
}

/// The closers for a stack of unclosed brackets, innermost first.
pub open spec fn closers_of(opens: Seq<char>) -> Seq<char> {
    Seq::new(opens.len(), |i: int| close_of(opens[opens.len() - 1 - i]))
}

/// The repaired form of a text: the text itself, a quote if the walk ended
/// inside a string literal, then the missing closers, innermost first.
pub open spec fn spec_repaired(s: Seq<char>) -> Seq<char> {
    s + (if walk(s).in_string {
        seq!['"']
    } else {
        Seq::empty()
    }) + closers_of(walk(s).opens)
}

/// Whether the repair routine declines: nothing is unbalanced, and no
/// proper prefix ever closed back to an empty stack.
pub open spec fn spec_repair_declined(s: Seq<char>) -> bool {
    walk(s).opens.len() == 0 && !(0 < walk(s).last_safe < s.len())
}

/// Attempt a structural repair of a truncated JSON text.
///
/// `None` exactly when the walk ends balanced and no proper prefix was a
/// balanced document: then there is nothing to append. On a fully balanced
/// text outside a string literal any `Some` result is the text unchanged:
/// no spurious brackets are ever appended.
pub fn repair_truncated_json(s: &String) -> (r: Option<String>)
    ensures
        match r {
            Some(t) => t@ == spec_repaired(s@) && !spec_repair_declined(s@),
            None => spec_repair_declined(s@),
        },
        walk(s@).opens.len() == 0 && !walk(s@).in_string && r is Some ==> r->0@ == s@,
{
    let chars = chars_vec(s.as_str());
    let mut in_string = false;
    let mut escaped = false;
    let mut opens: Vec<char> = Vec::new();
    let mut last_safe: usize = 0;
    let mut i: usize = 0;
    proof {
        assert(chars@.take(0) =~= Seq::<char>::empty());
        assert(walk(chars@.take(0)) =~= walk_init());
    }
    while i < chars.len()
        invariant
            chars@ == s@,
            i <= chars@.len(),
            walk(chars@.take(i as int)) == (WalkState {
                in_string,
                escaped,
                opens: opens@,
                last_safe: last_safe as int,
            }),
            last_safe <= i,
        decreases chars@.len() - i,
    {
        let c = chars[i];
        let ghost pre = WalkState { in_string, escaped, opens: opens@, last_safe: last_safe as int };
        if escaped {
            escaped = false;
        } else if in_string {
            if c == '\\' {
                escaped = true;
            } else if c == '"' {
                in_string = false;
            }
        } else if c == '"' {
            in_string = true;
        } else if c == '[' || c == '{' {
            opens.push(c);
        } else if c == ']' {
            if opens.len() > 0 && opens[opens.len() - 1] == '[' {
                opens.pop();
                if opens.len() == 0 {
                    last_safe = i + 1;
                }
            }
        } else if c == '}' {
            if opens.len() > 0 && opens[opens.len() - 1] == '{' {
                opens.pop();
                if opens.len() == 0 {
                    last_safe = i + 1;
                }
            }
        }
        i = i + 1;
        proof {
            assert(chars@.take(i as int).drop_last() =~= chars@.take(i - 1));
            assert(chars@.take(i as int).last() == c);
            assert(walk(chars@.take(i as int)) == walk_step(pre, c, i - 1));
            assert((WalkState {
                in_string,
                escaped,
                opens: opens@,
                last_safe: last_safe as int,
            }) =~= walk_step(pre, c, i - 1));
        }
    }
    proof {
        assert(chars@.take(chars@.len() as int) =~= chars@);
    }
    if opens.len() == 0 && !(0 < last_safe && last_safe < chars.len()) {
        return None;
    }
    let mut out = chars;
    if in_string {
        out.push('"');
    }
    let ghost base = out@;
    let mut k: usize = opens.len();
    while k > 0
        invariant
            k <= opens@.len(),
            out@.len() == base.len() + (opens@.len() - k),
            out@.subrange(0, base.len() as int) == base,
            forall|j: int|
                0 <= j < opens@.len() - k ==> #[trigger] out@[base.len() + j] == close_of(
                    opens@[opens@.len() - 1 - j],
                ),
        decreases k,
    {
        k = k - 1;
        let closer: char = if opens[k] == '[' {
            ']'
        } else {
            '}'
        };
        let ghost prev = out@;
        out.push(closer);
        proof {
            assert(out@.subrange(0, base.len() as int) =~= prev.subrange(0, base.len() as int));
        }
    }
    proof {
        assert forall|idx: int| 0 <= idx < out@.len() implies out@[idx] == (base + closers_of(
            opens@,
        ))[idx] by {
            if idx < base.len() {
                assert(out@.subrange(0, base.len() as int)[idx] == out@[idx]);
            } else {
                let j = idx - base.len();
                assert(out@[base.len() + j] == close_of(opens@[opens@.len() - 1 - j]));
                assert((base + closers_of(opens@))[idx] == closers_of(opens@)[j]);
            }
        }
        assert(out@ =~= base + closers_of(opens@));
        if walk(s@).in_string {
            assert(base =~= s@ + seq!['"']);
        } else {
            assert(base =~= s@ + Seq::<char>::empty());
        }
        assert(out@ =~= spec_repaired(s@));
        if walk(s@).opens.len() == 0 && !walk(s@).in_string {
            assert(out@ =~= s@);
        }
    }
    Some(string_from_chars(&out))
}

/// The fence-stripped JSON block of a model response: surrounding
/// whitespace removed, a leading ```` ```json ```` or ```` ``` ```` fence
/// and a trailing ```` ``` ```` fence dropped, and the remainder trimmed.
pub open spec fn spec_json_block(s: Seq<char>) -> Seq<char> {
    spec_trim(strip_fence_suffix(strip_fence_prefix(spec_trim(s))))
}

pub open spec fn fence_json() -> Seq<char> {
    seq!['`', '`', '`', 'j', 's', 'o', 'n']
}

pub open spec fn fence_plain() -> Seq<char> {
    seq!['`', '`', '`']
}

pub open spec fn strip_fence_prefix(s: Seq<char>) -> Seq<char> {
    if s.len() >= 7 && s.subrange(0, 7) == fence_json() {
        s.skip(7)
    } else if s.len() >= 3 && s.subrange(0, 3) == fence_plain() {
        s.skip(3)
    } else {
        s
    }
}

/// Drops trailing whitespace, then a trailing fence if one is there; when
/// no fence follows the trailing whitespace, the text (whitespace and all)
/// is kept as it stands.
pub open spec fn strip_fence_suffix(s: Seq<char>) -> Seq<char> {
    let t = s.take(s.len() - trailing_spaces(s));
    if t.len() >= 3 && t.subrange(t.len() - 3, t.len() as int) == fence_plain() {
        t.take(t.len() - 3)
    } else {
        s
    }
}

/// Strip a markdown code fence from a model response and hand back the
/// JSON block inside it.
pub fn extract_json_from_response(response: &String) -> (r: Option<String>)
    ensures
        r is Some,
        r->0@ == spec_json_block(response@),
{
    let chars = chars_vec(response.as_str());
    let trimmed = trim_chars(&chars);
    let mut fj: Vec<char> = Vec::new();
    fj.push('`');
    fj.push('`');
    fj.push('`');
    fj.push('j');
    fj.push('s');
    fj.push('o');
    fj.push('n');
    proof {
        assert(fj@ =~= fence_json());
    }
    let mut fp: Vec<char> = Vec::new();
    fp.push('`');
    fp.push('`');
    fp.push('`');
    proof {
        assert(fp@ =~= fence_plain());
    }
    let after_prefix: Vec<char> = if starts_with_chars(&trimmed, &fj) {
        let mut v: Vec<char> = Vec::new();
        let mut i: usize = 7;
        while i < trimmed.len()
            invariant
                7 <= i <= trimmed@.len(),
                v@ == trimmed@.subrange(7, i as int),
            decreases trimmed@.len() - i,
        {
            v.push(trimmed[i]);
            i = i + 1;
            proof {
                assert(v@ =~= trimmed@.subrange(7, i as int));
            }
        }
        proof {
            assert(trimmed@.subrange(0, 7) == fj@);
            assert(v@ =~= trimmed@.skip(7));
        }
        v
    } else if starts_with_chars(&trimmed, &fp) {
        let mut v: Vec<char> = Vec::new();
        let mut i: usize = 3;
        while i < trimmed.len()
            invariant
                3 <= i <= trimmed@.len(),
                v@ == trimmed@.subrange(3, i as int),
            decreases trimmed@.len() - i,
        {
            v.push(trimmed[i]);
            i = i + 1;
            proof {
                assert(v@ =~= trimmed@.subrange(3, i as int));
            }
        }
        proof {
            assert(trimmed@.subrange(0, 3) == fp@);
            assert(v@ =~= trimmed@.skip(3));
            if trimmed@.len() >= 7 && trimmed@.subrange(0, 7) == fence_json() {
                assert(trimmed@.subrange(0, 7)[3] == 'j');
                assert(trimmed@[3] == 'j');
                assert(false);
            }
        }
        v
    } else {
        proof {
            if trimmed@.len() >= 7 && trimmed@.subrange(0, 7) == fence_json() {
                assert(trimmed@.subrange(0, 7) == fj@);
            }
            if trimmed@.len() >= 3 && trimmed@.subrange(0, 3) == fence_plain() {
                assert(trimmed@.subrange(0, 3) == fp@);
            }
        }
        trimmed
    };
    proof {
        assert(after_prefix@ == strip_fence_prefix(spec_trim(response@)));
    }
    // drop a trailing fence after trailing whitespace, if one is there
    let ghost sfx_in = after_prefix@;
    proof {
        lemma_trailing_spaces_bound(sfx_in);
    }
    let mut hi: usize = after_prefix.len();
    while hi > 0 && crate::text::is_space_c(after_prefix[hi - 1])
        invariant
            after_prefix@ == sfx_in,
            hi <= sfx_in.len(),
            forall|j: int| hi <= j < sfx_in.len() ==> crate::text::spec_is_space(sfx_in[j]),
            trailing_spaces(sfx_in) >= sfx_in.len() - hi,
        decreases hi,
    {
        proof {
            crate::text::lemma_trailing_spaces_suffix_pub(sfx_in, (sfx_in.len() - hi) as int);
        }
        hi = hi - 1;
    }
    proof {
        lemma_trailing_spaces_bound(sfx_in);
        if hi > 0 {
            assert(trailing_spaces(sfx_in) <= sfx_in.len() - hi);
        } else {
            if trailing_spaces(sfx_in) > sfx_in.len() {
                assert(false);
            }
            if trailing_spaces(sfx_in) < sfx_in.len() {
                assert(crate::text::spec_is_space(sfx_in[sfx_in.len() - trailing_spaces(sfx_in)
                    - 1]));
                assert(false);
            }
        }
        assert(hi as int == sfx_in.len() - trailing_spaces(sfx_in));
    }
    let mut t: Vec<char> = Vec::new();
    let mut i: usize = 0;
    while i < hi
        invariant
            after_prefix@ == sfx_in,
            i <= hi <= sfx_in.len(),
            t@ == sfx_in.subrange(0, i as int),
        decreases hi - i,
    {
        t.push(after_prefix[i]);
        i = i + 1;
        proof {
            assert(t@ =~= sfx_in.subrange(0, i as int));
        }
    }
    proof {
        assert(t@ =~= sfx_in.take(sfx_in.len() - trailing_spaces(sfx_in)));
    }
    let stripped: Vec<char> = if ends_with_chars(&t, &fp) {
        let mut v: Vec<char> = Vec::new();
        let mut i2: usize = 0;
        while i2 < t.len() - 3
            invariant
                t@.len() >= 3,
                i2 <= t@.len() - 3,
                v@ == t@.subrange(0, i2 as int),
            decreases t@.len() - 3 - i2,
        {
            v.push(t[i2]);
            i2 = i2 + 1;
            proof {
                assert(v@ =~= t@.subrange(0, i2 as int));
            }
        }
        proof {
            assert(t@.subrange(t@.len() - 3, t@.len() as int) == fp@);
            assert(v@ =~= t@.take(t@.len() - 3));
            assert(v@ == strip_fence_suffix(sfx_in));
        }
        v
    } else {
        proof {
            if t@.len() >= 3 && t@.subrange(t@.len() - 3, t@.len() as int) == fence_plain() {
                assert(t@.subrange(t@.len() - 3, t@.len() as int) == fp@);
            }
            assert(after_prefix@ == strip_fence_suffix(sfx_in));
        }
        after_prefix
    };
    let out = trim_chars(&stripped);
    proof {
        assert(out@ == spec_json_block(response@));
    }
    Some(string_from_chars(&out))
}

/// Salvage the JSON document of a model response: extract the block inside
/// any code fence, try a strict parse, and on failure repair the text once
/// and try again; what comes back is a parseable text or a descriptive
/// error.
///
/// An already-valid block passes through unchanged: the strict parse wins
/// before any repair is attempted.
pub fn salvage_json_response(response: &String) -> (r: Result<String, String>)
    ensures
        match r {
            Ok(t) => {
                &&& json_ok(t@)
                &&& (t@ == spec_json_block(response@) || t@ == spec_repaired(
                    spec_json_block(response@),
                ))
                &&& (json_ok(spec_json_block(response@)) ==> t@ == spec_json_block(response@))
            },
            Err(_) => {
                &&& !json_ok(spec_json_block(response@))
                &&& (spec_repair_declined(spec_json_block(response@)) || !json_ok(
                    spec_repaired(spec_json_block(response@)),
                ))
            },
        },
{
    let block = match extract_json_from_response(response) {
        Some(b) => b,
        None => {
            return Err(describe_parse_failure(response));
        },
    };
    if json_parses(block.as_str()) {
        return Ok(block);
    }
    match repair_truncated_json(&block) {
        Some(fixed) => {
            if json_parses(fixed.as_str()) {
                return Ok(fixed);
            }
        },
        None => {},
    }
    Err(describe_parse_failure(response))
}

/// The error handed to callers when a response cannot be salvaged: it
/// names the failure and carries the response length in characters, so
/// that the surfaced hint can be to raise the model's output budget.
fn describe_parse_failure(response: &String) -> (r: String)
    ensures
        exists|d: Seq<char>|
            crate::text::all_digits(d) && d.len() >= 1 && (d.len() > 1 ==> d[0] != '0')
                && crate::text::digits_val(d) == response@.len() && r@
                == #[trigger] msg_around(d),
{
    let chars = chars_vec(response.as_str());
    let mut msg = String::new();
    let hv = chars_vec("JSON in the response cannot be parsed and may be truncated (response length: ");
    let mut i: usize = 0;
    while i < hv.len()
        invariant
            msg@ == hv@.take(i as int),
            i <= hv@.len(),
        decreases hv@.len() - i,
    {
        push_char(&mut msg, hv[i]);
        i = i + 1;
        proof {
            assert(msg@ =~= hv@.take(i as int));
        }
    }
    let digits = u64_to_chars(chars.len() as u64);
    let mut j: usize = 0;
    while j < digits.len()
        invariant
            msg@ == hv@.take(hv@.len() as int) + digits@.take(j as int),
            j <= digits@.len(),
        decreases digits@.len() - j,
    {
        push_char(&mut msg, digits[j]);
        j = j + 1;
        proof {
            assert(msg@ =~= hv@.take(hv@.len() as int) + digits@.take(j as int));
        }
    }
    let tv = chars_vec(" chars); raising the model's output budget may help");
    let mut k: usize = 0;
    while k < tv.len()
        invariant
            msg@ == hv@.take(hv@.len() as int) + digits@.take(digits@.len() as int) + tv@.take(
                k as int,
            ),
            k <= tv@.len(),
        decreases tv@.len() - k,
    {
        push_char(&mut msg, tv[k]);
        k = k + 1;
        proof {
            assert(msg@ =~= hv@.take(hv@.len() as int) + digits@.take(digits@.len() as int)
                + tv@.take(k as int));
        }
    }
    proof {
        assert(hv@.take(hv@.len() as int) =~= hv@);
        assert(digits@.take(digits@.len() as int) =~= digits@);
        assert(tv@.take(tv@.len() as int) =~= tv@);
        assert(msg@ =~= msg_around(digits@));
        assert(crate::text::digits_val(digits@) == response@.len());
    }
    msg
}

/// The failure message around a rendered length.
pub open spec fn msg_around(d: Seq<char>) -> Seq<char> {
    "JSON in the response cannot be parsed and may be truncated (response length: "@ + d
        + " chars); raising the model's output budget may help"@
}

} // verus!
