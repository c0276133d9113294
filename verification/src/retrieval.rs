//! Relevance-scored retrieval of historical notes.
//!
//! Given the entities extracted from a fresh note and the note's raw text,
//! the retriever gathers the notes already linked to those entities, scores
//! each candidate by token overlap, literal entity-name hits and a
//! saturating seed-hit ratio, ranks them, and greedily packs the best into
//! a character budget.
//!
//! Tokens are formed by script class: contiguous Latin alphanumeric runs
//! (lowercased, length two or more) are single tokens, contiguous
//! ideographic runs decompose into overlapping bigrams, and an isolated
//! ideographic character stands alone. Scores combine the three signals
//! with weights 65%, 25% and 10%; to stay in integers the score is kept as
//! the numerator over the common denominator `60 * q * t` (`q` query
//! tokens, `t` entity terms), with each count saturated at `2^32`.

use vstd::prelude::*;

use crate::ingest::ExtractedEntity;
use crate::store::Store;
use crate::store::Memory;
use crate::store::mems_view;
use crate::store::strings_view;
use crate::text::chars_vec;
use crate::text::string_from_chars;
use crate::text::string_eq;
use crate::text::trim_chars;
use crate::text::spec_trim;
use crate::text::contains_sub;
use crate::text::spec_contains_sub;
use crate::text::spec_is_ascii_alphanumeric;
use crate::text::spec_ascii_lower;
use crate::text::is_ascii_alphanumeric_c;
use crate::text::ascii_lower_c;

verus! {

/// Per-entity cap on gathered candidate memories.
pub const RAG_CANDIDATES_PER_ENTITY: usize = 8;

/// At most this many ranked candidates are considered for packing.
pub const RAG_TOP_K: usize = 6;

/// The global character budget of the packed context.
pub const RAG_MAX_CONTEXT_CHARS: usize = 2800;

/// The per-snippet character cap.
pub const RAG_MAX_MEMORY_CHARS: usize = 520;

/// Each count entering the score saturates here.
pub const COUNT_CAP: u64 = 0x1_0000_0000;

/// The lowercase form that `str::to_lowercase` yields.
pub uninterp spec fn lower_of(s: Seq<char>) -> Seq<char>;

/// Relies on `str::to_lowercase`: the Unicode lowercase mapping of the
/// text; the result depends on the characters alone.
#[verifier::external_body]
fn lowercase(s: &str) -> (r: String)
    ensures
        r@ == lower_of(s@),
{
    s.to_lowercase()
}

/// The lowercase form of a string, through the one lowercasing call.
pub fn lowercase_text(s: &String) -> (r: String)
    ensures
        r@ == lower_of(s@),
{
    lowercase(s.as_str())
}

/// An ideographic-script character, for the bigram tokenization: the
/// unified CJK blocks and their extension, compatibility forms, kana, and
/// Hangul syllables.
pub open spec fn spec_is_cjk(c: char) -> bool {
    (0x3400 <= c as int && c as int <= 0x4DBF) || (0x4E00 <= c as int && c as int <= 0x9FFF) || (
    0xF900 <= c as int && c as int <= 0xFAFF) || (0x3040 <= c as int && c as int <= 0x30FF) || (
    0xAC00 <= c as int && c as int <= 0xD7AF)
}

#[verifier::when_used_as_spec(spec_is_cjk)]
pub fn is_cjk_char(c: char) -> (r: bool)
    ensures
        r == spec_is_cjk(c),
{
    let u = c as u32;
    (0x3400 <= u && u <= 0x4DBF) || (0x4E00 <= u && u <= 0x9FFF) || (0xF900 <= u && u <= 0xFAFF)
        || (0x3040 <= u && u <= 0x30FF) || (0xAC00 <= u && u <= 0xD7AF)
}

/// The tokenizer's running state: the pending Latin run, the pending
/// ideographic run, and the tokens already emitted.
#[verifier::ext_equal]
pub struct TokState {
    pub latin: Seq<char>,
    pub cjk: Seq<char>,
    pub out: Seq<Seq<char>>,
}

pub open spec fn tok_init() -> TokState {
    TokState { latin: Seq::empty(), cjk: Seq::empty(), out: Seq::empty() }
}

/// A flushed Latin run is kept only when two or more characters long.
pub open spec fn flush_latin(st: TokState) -> TokState {
    TokState {
        latin: Seq::empty(),
        out: if st.latin.len() >= 2 {
            st.out.push(st.latin)
        } else {
            st.out
        },
        ..st
    }
}

/// A flushed ideographic run becomes overlapping bigrams; a single
/// isolated character stands alone.
pub open spec fn flush_cjk(st: TokState) -> TokState {
    TokState {
        cjk: Seq::empty(),
        out: if st.cjk.len() == 1 {
            st.out.push(st.cjk)
        } else if st.cjk.len() >= 2 {
            st.out + Seq::new((st.cjk.len() - 1) as nat, |i: int| seq![st.cjk[i], st.cjk[i + 1]])
        } else {
            st.out
        },
        ..st
    }
}

/// One character of tokenization.
pub open spec fn tok_step(st: TokState, raw: char) -> TokState {
    let c = spec_ascii_lower(raw);
    if spec_is_ascii_alphanumeric(c) {
        let st1 = if st.cjk.len() > 0 {
            flush_cjk(st)
        } else {
            st
        };
        TokState { latin: st1.latin.push(c), ..st1 }
    } else if spec_is_cjk(raw) {
        let st1 = if st.latin.len() > 0 {
            flush_latin(st)
        } else {
            st
        };
        TokState { cjk: st1.cjk.push(raw), ..st1 }
    } else {
        flush_cjk(flush_latin(st))
    }
}

pub open spec fn tok_fold(s: Seq<char>) -> TokState
    decreases s.len(),
{
    if s.len() == 0 {
        tok_init()
    } else {
        tok_step(tok_fold(s.drop_last()), s.last())
    }
}

/// The tokens of a text.
pub open spec fn spec_tokenize(s: Seq<char>) -> Seq<Seq<char>> {
    flush_cjk(flush_latin(tok_fold(s))).out
}

/// Split a text into retrieval tokens by script class.
pub fn tokenize_for_rag(text: &String) -> (r: Vec<String>)
    ensures
        strings_view(r@) == spec_tokenize(text@),
{
    let chars = chars_vec(text.as_str());
    let mut latin: Vec<char> = Vec::new();
    let mut cjk: Vec<char> = Vec::new();
    let mut out: Vec<String> = Vec::new();
    let mut i: usize = 0;
    proof {
        assert(chars@.take(0) =~= Seq::<char>::empty());
        assert(tok_fold(chars@.take(0)) =~= tok_init());
        assert(strings_view(out@) =~= Seq::<Seq<char>>::empty());
    }
    while i < chars.len()
        invariant
            chars@ == text@,
            i <= chars@.len(),
            tok_fold(chars@.take(i as int)) == (TokState {
                latin: latin@,
                cjk: cjk@,
                out: strings_view(out@),
            }),
        decreases chars@.len() - i,
    {
        let raw = chars[i];
        let ghost pre = TokState { latin: latin@, cjk: cjk@, out: strings_view(out@) };
        let c = ascii_lower_c(raw);
        if is_ascii_alphanumeric_c(c) {
            if cjk.len() > 0 {
                flush_cjk_exec(&mut cjk, &mut out);
            }
            latin.push(c);
        } else if is_cjk_char(raw) {
            if latin.len() > 0 {
                flush_latin_exec(&mut latin, &mut out);
            }
            cjk.push(raw);
        } else {
            if latin.len() > 0 {
                flush_latin_exec(&mut latin, &mut out);
            } else {
                proof {
                    assert(flush_latin(pre) =~= pre);
                }
            }
            if cjk.len() > 0 {
                flush_cjk_exec(&mut cjk, &mut out);
            } else {
                proof {
                    assert(flush_cjk(flush_latin(pre)) =~= flush_latin(pre));
                }
            }
        }
        i = i + 1;
        proof {
            assert(chars@.take(i as int).drop_last() =~= chars@.take(i - 1));
            assert(chars@.take(i as int).last() == raw);
            assert((TokState { latin: latin@, cjk: cjk@, out: strings_view(out@) }) =~= tok_step(
                pre,
                raw,
            ));
        }
    }
    proof {
        assert(chars@.take(chars@.len() as int) =~= chars@);
    }
    let ghost fin = TokState { latin: latin@, cjk: cjk@, out: strings_view(out@) };
    if latin.len() > 0 {
        flush_latin_exec(&mut latin, &mut out);
    } else {
        proof {
            assert(flush_latin(fin) =~= fin);
        }
    }
    let ghost fin2 = TokState { latin: latin@, cjk: cjk@, out: strings_view(out@) };
    proof {
        assert(fin2 =~= flush_latin(fin));
    }
    if cjk.len() > 0 {
        flush_cjk_exec(&mut cjk, &mut out);
    } else {
        proof {
            assert(flush_cjk(fin2) =~= fin2);
        }
    }
    proof {
        assert(strings_view(out@) =~= flush_cjk(flush_latin(tok_fold(text@))).out);
    }
    out
}

/// Emit the pending Latin run.
fn flush_latin_exec(latin: &mut Vec<char>, out: &mut Vec<String>)
    ensures
        final(latin)@ == Seq::<char>::empty(),
        (TokState {
            latin: final(latin)@,
            cjk: Seq::empty(),
            out: strings_view(final(out)@),
        }) == flush_latin(
            (TokState {
                latin: old(latin)@,
                cjk: Seq::empty(),
                out: strings_view(old(out)@),
            }),
        ),
{
    if latin.len() >= 2 {
        out.push(string_from_chars(latin));
        proof {
            assert(strings_view(out@) =~= strings_view(old(out)@).push(old(latin)@));
        }
    }
    latin.clear();
    proof {
        assert((TokState {
            latin: final(latin)@,
            cjk: Seq::empty(),
            out: strings_view(out@),
        }) =~= flush_latin(
            (TokState {
                latin: old(latin)@,
                cjk: Seq::empty(),
                out: strings_view(old(out)@),
            }),
        ));
    }
}

/// Emit the pending ideographic run as bigrams, or alone when isolated.
fn flush_cjk_exec(cjk: &mut Vec<char>, out: &mut Vec<String>)
    ensures
        final(cjk)@ == Seq::<char>::empty(),
        (TokState {
            latin: Seq::empty(),
            cjk: final(cjk)@,
            out: strings_view(final(out)@),
        }) == flush_cjk(
            (TokState {
                latin: Seq::empty(),
                cjk: old(cjk)@,
                out: strings_view(old(out)@),
            }),
        ),
{
    if cjk.len() == 1 {
        let mut one: Vec<char> = Vec::new();
        one.push(cjk[0]);
        proof {
            assert(one@ =~= old(cjk)@);
        }
        out.push(string_from_chars(&one));
        proof {
            assert(strings_view(out@) =~= strings_view(old(out)@).push(old(cjk)@));
        }
    } else if cjk.len() >= 2 {
        let ghost grams = Seq::new(
            (old(cjk)@.len() - 1) as nat,
            |i: int| seq![old(cjk)@[i], old(cjk)@[i + 1]],
        );
        let mut j: usize = 0;
        proof {
            assert(strings_view(out@) =~= strings_view(old(out)@) + grams.take(0));
        }
        while j + 1 < cjk.len()
            invariant
                cjk@ == old(cjk)@,
                2 <= cjk@.len() <= usize::MAX,
                j <= cjk@.len() - 1,
                out@.len() == old(out)@.len() + j,
                grams == Seq::new(
                    (old(cjk)@.len() - 1) as nat,
                    |i: int| seq![old(cjk)@[i], old(cjk)@[i + 1]],
                ),
                strings_view(out@) == strings_view(old(out)@) + grams.take(j as int),
            decreases cjk@.len() - j,
        {
            let mut pair: Vec<char> = Vec::new();
            pair.push(cjk[j]);
            pair.push(cjk[j + 1]);
            proof {
                assert(pair@ =~= grams[j as int]);
            }
            let ghost prevo = out@;
            out.push(string_from_chars(&pair));
            j = j + 1;
            proof {
                assert forall|k: int| 0 <= k < out@.len() implies strings_view(out@)[k] == (
                strings_view(old(out)@) + grams.take(j as int))[k] by {
                    if k < prevo.len() {
                        assert(out@[k] == prevo[k]);
                        assert(strings_view(prevo)[k] == (strings_view(old(out)@) + grams.take(
                            j - 1,
                        ))[k]);
                        if k >= old(out)@.len() {
                            assert(grams.take(j - 1)[k - old(out)@.len()] == grams.take(j as int)[k
                                - old(out)@.len()]);
                        }
                    } else {
                        assert(out@[k]@ == grams[j - 1]);
                        assert((strings_view(old(out)@) + grams.take(j as int))[k] == grams.take(
                            j as int,
                        )[j - 1]);
                    }
                }
                assert(strings_view(out@) =~= strings_view(old(out)@) + grams.take(j as int));
            }
        }
        proof {
            assert(grams.take((cjk@.len() - 1) as int) =~= grams);
        }
    }
    cjk.clear();
    proof {
        assert((TokState {
            latin: Seq::empty(),
            cjk: final(cjk)@,
            out: strings_view(out@),
        }) =~= flush_cjk(
            (TokState {
                latin: Seq::empty(),
                cjk: old(cjk)@,
                out: strings_view(old(out)@),
            }),
        ));
    }
}

/// First occurrences, in order: the deduplication fold.
pub open spec fn spec_dedup_from(s: Seq<Seq<char>>, acc: Seq<Seq<char>>) -> Seq<Seq<char>>
    decreases s.len(),
{
    if s.len() == 0 {
        acc
    } else {
        spec_dedup_from(
            s.skip(1),
            if acc.contains(s[0]) {
                acc
            } else {
                acc.push(s[0])
            },
        )
    }
}

/// The distinct tokens of a list, first occurrences first.
pub open spec fn spec_dedup(s: Seq<Seq<char>>) -> Seq<Seq<char>> {
    spec_dedup_from(s, Seq::empty())
}

/// Keep the first occurrence of each token.
pub fn dedup_tokens(v: &Vec<String>) -> (r: Vec<String>)
    ensures
        strings_view(r@) == spec_dedup(strings_view(v@)),
{
    let ghost sv = strings_view(v@);
    let mut out: Vec<String> = Vec::new();
    let mut i: usize = 0;
    proof {
        assert(sv.skip(0) =~= sv);
        assert(strings_view(out@) =~= Seq::<Seq<char>>::empty());
    }
    while i < v.len()
        invariant
            sv == strings_view(v@),
            i <= v@.len(),
            spec_dedup(sv) == spec_dedup_from(sv.skip(i as int), strings_view(out@)),
        decreases v@.len() - i,
    {
        let ghost pre = strings_view(out@);
        proof {
            assert(sv.skip(i as int)[0] == sv[i as int]);
            assert(sv.skip(i as int).skip(1) =~= sv.skip(i + 1));
            assert(sv[i as int] == v@[i as int]@);
        }
        if !contains_token(&out, &v[i]) {
            out.push(v[i].clone());
            proof {
                assert(strings_view(out@) =~= pre.push(sv[i as int]));
            }
        }
        i = i + 1;
    }
    proof {
        assert(sv.skip(sv.len() as int).len() == 0);
    }
    out
}

/// Whether a token is already in the list, by text.
fn contains_token(v: &Vec<String>, t: &String) -> (r: bool)
    ensures
        r == strings_view(v@).contains(t@),
{
    let mut i: usize = 0;
    while i < v.len()
        invariant
            i <= v@.len(),
            forall|j: int| 0 <= j < i ==> #[trigger] strings_view(v@)[j] != t@,
        decreases v@.len() - i,
    {
        if string_eq(&v[i], t) {
            proof {
                assert(strings_view(v@)[i as int] == t@);
            }
            return true;
        }
        proof {
            assert(strings_view(v@)[i as int] == v@[i as int]@);
        }
        i = i + 1;
    }
    false
}

/// How many of the query tokens occur among the candidate's tokens.
pub open spec fn spec_overlap(q: Seq<Seq<char>>, c: Seq<Seq<char>>) -> int
    decreases q.len(),
{
    if q.len() == 0 {
        0
    } else {
        (if c.contains(q[0]) {
            1int
        } else {
            0int
        }) + spec_overlap(q.skip(1), c)
    }
}

/// How many of the entity terms occur literally in the lowercased
/// candidate text.
pub open spec fn spec_entity_hits(terms: Seq<Seq<char>>, content_lc: Seq<char>) -> int
    decreases terms.len(),
{
    if terms.len() == 0 {
        0
    } else {
        (if spec_contains_sub(content_lc, terms[0]) {
            1int
        } else {
            0int
        }) + spec_entity_hits(terms.skip(1), content_lc)
    }
}

/// A count saturated at the scoring cap.
pub open spec fn cap_count(n: int) -> int {
    if n <= COUNT_CAP as int {
        n
    } else {
        COUNT_CAP as int
    }
}

/// The score numerator over the common denominator `60 * max(q,1) * max(t,1)`:
/// 65% token overlap, 25% entity-name hits, 10% seed-hit ratio saturated
/// at three hits.
pub open spec fn spec_score_num(o: int, q: int, h: int, t: int, seeds: int) -> int {
    let qq = cap_count(if q >= 1 {
        q
    } else {
        1
    });
    let tt = cap_count(if t >= 1 {
        t
    } else {
        1
    });
    let m = if seeds <= 3 {
        seeds
    } else {
        3
    };
    39 * cap_count(o) * tt + 15 * cap_count(h) * qq + 2 * m * qq * tt
}

/// The relevance gate: score at least `0.12`, or any literal entity hit,
/// or a token overlap of two or more.
pub open spec fn spec_relevant(o: int, q: int, h: int, t: int, seeds: int) -> bool {
    let qq = cap_count(if q >= 1 {
        q
    } else {
        1
    });
    let tt = cap_count(if t >= 1 {
        t
    } else {
        1
    });
    25 * spec_score_num(o, q, h, t, seeds) >= 180 * qq * tt || h > 0 || o >= 2
}

/// Exec saturation helper.
fn cap_u64(n: u64) -> (r: u64)
    ensures
        r as int == cap_count(n as int),
        r <= COUNT_CAP,
{
    if n <= COUNT_CAP {
        n
    } else {
        COUNT_CAP
    }
}

/// Score one candidate: the integer score numerator, the raw token
/// overlap, and the raw entity-hit count.
///
/// The query token list is expected deduplicated; the candidate's own
/// tokens are derived here, and the entity terms are matched inside the
/// lowercase form of the candidate text.
pub fn memory_relevance_score(
    query_tokens: &Vec<String>,
    entity_terms: &Vec<String>,
    candidate_content: &String,
    seed_hits: u64,
) -> (r: (u128, u64, u64))
    ensures
        ({
            let o = spec_overlap(strings_view(query_tokens@), spec_tokenize(candidate_content@));
            let h = spec_entity_hits(strings_view(entity_terms@), lower_of(candidate_content@));
            &&& r.1 as int == cap_count(o)
            &&& r.2 as int == cap_count(h)
            &&& r.0 as int == spec_score_num(
                o,
                query_tokens@.len() as int,
                h,
                entity_terms@.len() as int,
                seed_hits as int,
            )
            &&& r.0 as int <= 60 * 0x1_0000_0000 * 0x1_0000_0000
        }),
{
    let cand_tokens = tokenize_for_rag(candidate_content);
    let mut o: u64 = 0;
    let mut i: usize = 0;
    while i < query_tokens.len()
        invariant
            i <= query_tokens@.len(),
            o as int == cap_count(
                spec_overlap(
                    strings_view(query_tokens@).take(i as int),
                    strings_view(cand_tokens@),
                ),
            ),
            o <= COUNT_CAP,
        decreases query_tokens@.len() - i,
    {
        proof {
            lemma_overlap_step(strings_view(query_tokens@), strings_view(cand_tokens@), i as int);
        }
        if contains_token(&cand_tokens, &query_tokens[i]) {
            if o < COUNT_CAP {
                o = o + 1;
            }
        }
        i = i + 1;
    }
    proof {
        assert(strings_view(query_tokens@).take(query_tokens@.len() as int) =~= strings_view(
            query_tokens@,
        ));
    }
    let content_lc = lowercase(candidate_content.as_str());
    let lc_chars = chars_vec(content_lc.as_str());
    let mut h: u64 = 0;
    let mut j: usize = 0;
    while j < entity_terms.len()
        invariant
            lc_chars@ == lower_of(candidate_content@),
            j <= entity_terms@.len(),
            h as int == cap_count(
                spec_entity_hits(
                    strings_view(entity_terms@).take(j as int),
                    lower_of(candidate_content@),
                ),
            ),
            h <= COUNT_CAP,
        decreases entity_terms@.len() - j,
    {
        proof {
            lemma_hits_step(strings_view(entity_terms@), lower_of(candidate_content@), j as int);
        }
        let term = chars_vec(entity_terms[j].as_str());
        if contains_sub(&lc_chars, &term) {
            if h < COUNT_CAP {
                h = h + 1;
            }
        }
        j = j + 1;
    }
    proof {
        assert(strings_view(entity_terms@).take(entity_terms@.len() as int) =~= strings_view(
            entity_terms@,
        ));
    }
    let q: u64 = if query_tokens.len() >= 1 {
        cap_u64(query_tokens.len() as u64)
    } else {
        1
    };
    let t: u64 = if entity_terms.len() >= 1 {
        cap_u64(entity_terms.len() as u64)
    } else {
        1
    };
    let m: u64 = if seed_hits <= 3 {
        seed_hits
    } else {
        3
    };
    proof {
        assert((39 * (o as int)) * (t as int) <= 39 * 0x1_0000_0000 * 0x1_0000_0000)
            by (nonlinear_arith)
            requires
                0 <= o as int <= 0x1_0000_0000,
                0 <= t as int <= 0x1_0000_0000,
        ;
        assert((15 * (h as int)) * (q as int) <= 15 * 0x1_0000_0000 * 0x1_0000_0000)
            by (nonlinear_arith)
            requires
                0 <= h as int <= 0x1_0000_0000,
                0 <= q as int <= 0x1_0000_0000,
        ;
        assert((2 * (m as int)) * (q as int) <= 6 * 0x1_0000_0000) by (nonlinear_arith)
            requires
                0 <= m as int <= 3,
                0 <= q as int <= 0x1_0000_0000,
        ;
        assert((2 * (m as int)) * (q as int) >= 0) by (nonlinear_arith)
            requires
                0 <= m as int,
                0 <= q as int,
        ;
        assert(((2 * (m as int)) * (q as int)) * (t as int) <= 6 * 0x1_0000_0000 * 0x1_0000_0000)
            by (nonlinear_arith)
            requires
                0 <= m as int <= 3,
                0 <= q as int <= 0x1_0000_0000,
                0 <= t as int <= 0x1_0000_0000,
        ;
        assert((39 * (o as int)) * (t as int) >= 0) by (nonlinear_arith)
            requires
                0 <= o as int,
                0 <= t as int,
        ;
        assert((15 * (h as int)) * (q as int) >= 0) by (nonlinear_arith)
            requires
                0 <= h as int,
                0 <= q as int,
        ;
        assert(((2 * (m as int)) * (q as int)) * (t as int) >= 0) by (nonlinear_arith)
            requires
                0 <= m as int,
                0 <= q as int,
                0 <= t as int,
        ;
    }
    let num: u128 = 39u128 * (o as u128) * (t as u128) + 15u128 * (h as u128) * (q as u128)
        + 2u128 * (m as u128) * (q as u128) * (t as u128);
    proof {
        lemma_overlap_bounds(strings_view(query_tokens@), strings_view(cand_tokens@));
        lemma_hits_bounds(strings_view(entity_terms@), lower_of(candidate_content@));
    }
    (num, o, h)
}

proof fn lemma_overlap_step(q: Seq<Seq<char>>, c: Seq<Seq<char>>, i: int)
    requires
        0 <= i < q.len(),
    ensures
        spec_overlap(q.take(i + 1), c) == spec_overlap(q.take(i), c) + (if c.contains(q[i]) {
            1int
        } else {
            0int
        }),
    decreases i,
{
    if i == 0 {
        assert(q.take(1)[0] == q[0]);
        assert(q.take(1).skip(1) =~= q.take(0));
    } else {
        assert(q.take(i + 1)[0] == q[0]);
        assert(q.take(i)[0] == q[0]);
        assert(q.take(i + 1).skip(1) =~= q.skip(1).take(i));
        assert(q.take(i).skip(1) =~= q.skip(1).take(i - 1));
        lemma_overlap_step(q.skip(1), c, i - 1);
        assert(q.skip(1)[i - 1] == q[i]);
    }
}

proof fn lemma_overlap_bounds(q: Seq<Seq<char>>, c: Seq<Seq<char>>)
    ensures
        0 <= spec_overlap(q, c) <= q.len(),
    decreases q.len(),
{
    if q.len() > 0 {
        lemma_overlap_bounds(q.skip(1), c);
    }
}

proof fn lemma_hits_step(terms: Seq<Seq<char>>, lc: Seq<char>, i: int)
    requires
        0 <= i < terms.len(),
    ensures
        spec_entity_hits(terms.take(i + 1), lc) == spec_entity_hits(terms.take(i), lc) + (
        if spec_contains_sub(lc, terms[i]) {
            1int
        } else {
            0int
        }),
    decreases i,
{
    if i == 0 {
        assert(terms.take(1)[0] == terms[0]);
        assert(terms.take(1).skip(1) =~= terms.take(0));
    } else {
        assert(terms.take(i + 1)[0] == terms[0]);
        assert(terms.take(i)[0] == terms[0]);
        assert(terms.take(i + 1).skip(1) =~= terms.skip(1).take(i));
        assert(terms.take(i).skip(1) =~= terms.skip(1).take(i - 1));
        lemma_hits_step(terms.skip(1), lc, i - 1);
        assert(terms.skip(1)[i - 1] == terms[i]);
    }
}

proof fn lemma_hits_bounds(terms: Seq<Seq<char>>, lc: Seq<char>)
    ensures
        0 <= spec_entity_hits(terms, lc) <= terms.len(),
    decreases terms.len(),
{
    if terms.len() > 0 {
        lemma_hits_bounds(terms.skip(1), lc);
    }
}


/// Truncate a text to a character budget, marking the cut with an
/// ellipsis; text within the budget passes unchanged.
pub fn truncate_for_prompt(input: &String, max_chars: usize) -> (r: String)
    ensures
        input@.len() <= max_chars ==> r@ == input@,
        input@.len() > max_chars ==> r@ == input@.take(max_chars as int).push('\u{2026}'),
{
    let chars = chars_vec(input.as_str());
    if chars.len() <= max_chars {
        return string_from_chars(&chars);
    }
    let mut out: Vec<char> = Vec::new();
    let mut i: usize = 0;
    while i < max_chars
        invariant
            chars@ == input@,
            max_chars < chars@.len(),
            i <= max_chars,
            out@ == chars@.take(i as int),
        decreases max_chars - i,
    {
        out.push(chars[i]);
        i = i + 1;
        proof {
            assert(out@ =~= chars@.take(i as int));
        }
    }
    out.push('\u{2026}');
    string_from_chars(&out)
}

/// A scored, rank-ordered candidate note.
pub struct Ranked {
    pub memory_id: i64,
    pub content: String,
    pub seed_hits: u64,
    pub relevant: bool,
    pub score_num: u128,
}

/// Spec-level value of a ranked candidate.
#[verifier::ext_equal]
pub struct RankedV {
    pub memory_id: int,
    pub content: Seq<char>,
    pub seed_hits: int,
    pub relevant: bool,
    pub score_num: int,
}

impl View for Ranked {
    type V = RankedV;

    open spec fn view(&self) -> RankedV {
        RankedV {
            memory_id: self.memory_id as int,
            content: self.content@,
            seed_hits: self.seed_hits as int,
            relevant: self.relevant,
            score_num: self.score_num as int,
        }
    }
}

/// A ranked entry carries exactly the score and gate of its own content
/// and seed count against the given query tokens and entity terms.
pub open spec fn spec_ranked_consistent(
    rv: RankedV,
    query_tokens: Seq<Seq<char>>,
    entity_terms: Seq<Seq<char>>,
) -> bool {
    let o = spec_overlap(query_tokens, spec_tokenize(rv.content));
    let h = spec_entity_hits(entity_terms, lower_of(rv.content));
    &&& rv.score_num == spec_score_num(
        o,
        query_tokens.len() as int,
        h,
        entity_terms.len() as int,
        rv.seed_hits,
    )
    &&& rv.relevant == spec_relevant(
        o,
        query_tokens.len() as int,
        h,
        entity_terms.len() as int,
        rv.seed_hits,
    )
}

pub open spec fn ranked_view(s: Seq<Ranked>) -> Seq<RankedV> {
    Seq::new(s.len(), |i: int| s[i]@)
}

/// The greedy packing: walk the ranked list in order, up to `k` entries;
/// skip an irrelevant or blank entry, stop when the budget is gone, and
/// otherwise emit the entry's trimmed content, cut to the smaller of the
/// running budget and the per-snippet cap with an ellipsis appended when
/// it does not fit whole. Each selected entry is `(memory id, snippet)`.
pub open spec fn spec_pack(items: Seq<RankedV>, k: int, budget: int) -> Seq<(int, Seq<char>)>
    decreases items.len(),
{
    if items.len() == 0 || k <= 0 {
        Seq::empty()
    } else if !items[0].relevant {
        spec_pack(items.skip(1), k - 1, budget)
    } else if budget <= 0 {
        Seq::empty()
    } else {
        let trimmed = spec_trim(items[0].content);
        if trimmed.len() == 0 {
            spec_pack(items.skip(1), k - 1, budget)
        } else {
            let allow = if budget <= RAG_MAX_MEMORY_CHARS as int {
                budget
            } else {
                RAG_MAX_MEMORY_CHARS as int
            };
            let snippet = if trimmed.len() > allow {
                trimmed.take(allow).push('\u{2026}')
            } else {
                trimmed
            };
            let used = snippet.len() as int;
            let left = if budget - used >= 0 {
                budget - used
            } else {
                0
            };
            seq![(items[0].memory_id, snippet)] + spec_pack(items.skip(1), k - 1, left)
        }
    }
}

/// The memory ids a packing selects.
pub open spec fn pack_ids(items: Seq<RankedV>, k: int, budget: int) -> Seq<int> {
    spec_pack(items, k, budget).map_values(|p: (int, Seq<char>)| p.0)
}

/// Raising the character budget never drops a selected note: everything
/// selected under the smaller budget is selected under the larger one.
pub proof fn lemma_pack_budget_monotone(items: Seq<RankedV>, k: int, b1: int, b2: int)
    requires
        0 <= b1 <= b2,
    ensures
        forall|id: int|
            pack_ids(items, k, b1).contains(id) ==> #[trigger] pack_ids(items, k, b2).contains(
                id,
            ),
    decreases items.len(),
{
    if items.len() == 0 || k <= 0 {
    } else if !items[0].relevant {
        lemma_pack_budget_monotone(items.skip(1), k - 1, b1, b2);
        assert forall|id: int|
            pack_ids(items, k, b1).contains(id) implies #[trigger] pack_ids(items, k, b2).contains(
            id,
        ) by {
            lemma_pack_contains_skip(items, k, b1, id);
            lemma_pack_contains_skip(items, k, b2, id);
        }
    } else if b1 <= 0 {
        assert(pack_ids(items, k, b1).len() == 0);
    } else {
        let trimmed = spec_trim(items[0].content);
        if trimmed.len() == 0 {
            lemma_pack_budget_monotone(items.skip(1), k - 1, b1, b2);
            assert forall|id: int|
                pack_ids(items, k, b1).contains(id) implies #[trigger] pack_ids(
                items,
                k,
                b2,
            ).contains(id) by {
                lemma_pack_contains_skip(items, k, b1, id);
                lemma_pack_contains_skip(items, k, b2, id);
            }
        } else {
            let cap = RAG_MAX_MEMORY_CHARS as int;
            let allow1 = if b1 <= cap { b1 } else { cap };
            let allow2 = if b2 <= cap { b2 } else { cap };
            let used1 = if trimmed.len() > allow1 { allow1 + 1 } else { trimmed.len() as int };
            let used2 = if trimmed.len() > allow2 { allow2 + 1 } else { trimmed.len() as int };
            let left1 = if b1 - used1 >= 0 { b1 - used1 } else { 0 };
            let left2 = if b2 - used2 >= 0 { b2 - used2 } else { 0 };
            assert(used2 - used1 <= b2 - b1);
            assert(0 <= left1 <= left2);
            lemma_pack_budget_monotone(items.skip(1), k - 1, left1, left2);
            assert forall|id: int|
                pack_ids(items, k, b1).contains(id) implies #[trigger] pack_ids(
                items,
                k,
                b2,
            ).contains(id) by {
                lemma_pack_cons(items, k, b1, left1, id);
                lemma_pack_cons(items, k, b2, left2, id);
            }
        }
    }
}

/// Membership through a skipped head.
proof fn lemma_pack_contains_skip(items: Seq<RankedV>, k: int, b: int, id: int)
    requires
        items.len() > 0,
        k > 0,
        !items[0].relevant || (b > 0 && spec_trim(items[0].content).len() == 0),
    ensures
        pack_ids(items, k, b).contains(id) <==> pack_ids(items.skip(1), k - 1, b).contains(id),
{
    assert(spec_pack(items, k, b) == spec_pack(items.skip(1), k - 1, b));
}

/// Membership through a selected head.
proof fn lemma_pack_cons(items: Seq<RankedV>, k: int, b: int, left: int, id: int)
    requires
        items.len() > 0,
        k > 0,
        items[0].relevant,
        b > 0,
        spec_trim(items[0].content).len() > 0,
        left == ({
            let cap = RAG_MAX_MEMORY_CHARS as int;
            let allow = if b <= cap {
                b
            } else {
                cap
            };
            let used = if spec_trim(items[0].content).len() > allow {
                allow + 1
            } else {
                spec_trim(items[0].content).len() as int
            };
            if b - used >= 0 {
                b - used
            } else {
                0
            }
        }),
    ensures
        pack_ids(items, k, b).contains(id) <==> (id == items[0].memory_id || pack_ids(
            items.skip(1),
            k - 1,
            left,
        ).contains(id)),
{
    let rest = spec_pack(items.skip(1), k - 1, left);
    let trimmed = spec_trim(items[0].content);
    let cap = RAG_MAX_MEMORY_CHARS as int;
    let allow = if b <= cap { b } else { cap };
    let snippet = if trimmed.len() > allow { trimmed.take(allow).push('\u{2026}') } else { trimmed };
    assert(spec_pack(items, k, b) == seq![(items[0].memory_id, snippet)] + rest);
    let whole = spec_pack(items, k, b);
    if pack_ids(items, k, b).contains(id) {
        let w = choose|w: int| 0 <= w < whole.len() && #[trigger] pack_ids(items, k, b)[w] == id;
        if w == 0 {
            assert(whole[0].0 == items[0].memory_id);
        } else {
            assert(whole[w] == rest[w - 1]);
            assert(pack_ids(items.skip(1), k - 1, left)[w - 1] == id);
        }
    }
    if id == items[0].memory_id {
        assert(pack_ids(items, k, b)[0] == id);
    }
    if pack_ids(items.skip(1), k - 1, left).contains(id) {
        let w = choose|w: int|
            0 <= w < rest.len() && #[trigger] pack_ids(items.skip(1), k - 1, left)[w] == id;
        assert(whole[w + 1] == rest[w]);
        assert(pack_ids(items, k, b)[w + 1] == id);
    }
}

/// If nothing passes the relevance gate, nothing is packed: no context is
/// a valid, common outcome.
pub proof fn lemma_pack_all_irrelevant(items: Seq<RankedV>, k: int, budget: int)
    requires
        forall|i: int| 0 <= i < items.len() ==> !(#[trigger] items[i]).relevant,
    ensures
        spec_pack(items, k, budget).len() == 0,
    decreases items.len(),
{
    if items.len() > 0 && k > 0 {
        assert(forall|i: int|
            0 <= i < items.skip(1).len() ==> !(#[trigger] items.skip(1)[i]).relevant);
        lemma_pack_all_irrelevant(items.skip(1), k - 1, budget);
    }
}

/// Greedily pack ranked candidates into the character budget.
pub fn pack_snippets(items: &Vec<Ranked>, top_k: usize, budget: usize) -> (r: Vec<String>)
    ensures
        strings_view(r@) == spec_pack(ranked_view(items@), top_k as int, budget as int).map_values(
            |p: (int, Seq<char>)| p.1,
        ),
{
    let ghost tosnip = |p: (int, Seq<char>)| p.1;
    let mut out: Vec<String> = Vec::new();
    let mut budget_left: usize = budget;
    let mut i: usize = 0;
    let ghost whole = ranked_view(items@);
    proof {
        assert(whole.skip(0) =~= whole);
        assert(strings_view(out@).len() == 0);
        assert(strings_view(out@) + spec_pack(whole, top_k as int, budget as int).map_values(
            tosnip,
        ) =~= spec_pack(whole, top_k as int, budget as int).map_values(tosnip));
    }
    while i < items.len() && i < top_k
        invariant
            whole == ranked_view(items@),
            tosnip == (|p: (int, Seq<char>)| p.1),
            i <= items@.len(),
            i <= top_k,
            budget_left <= budget,
            strings_view(out@) + spec_pack(
                whole.skip(i as int),
                top_k - i,
                budget_left as int,
            ).map_values(tosnip) == spec_pack(whole, top_k as int, budget as int).map_values(
                tosnip,
            ),
        decreases items@.len() - i,
    {
        let ghost before = strings_view(out@);
        let ghost cur = whole.skip(i as int);
        let ghost kk = top_k - i;
        let ghost bb = budget_left as int;
        proof {
            assert(cur[0] == whole[i as int]);
            assert(cur.skip(1) =~= whole.skip(i + 1));
            assert(cur[0].relevant == items@[i as int].relevant);
            assert(cur[0].content == items@[i as int].content@);
        }
        if !items[i].relevant {
            proof {
                assert(spec_pack(cur, kk, bb) == spec_pack(cur.skip(1), kk - 1, bb));
            }
            i = i + 1;
            continue ;
        }
        if budget_left == 0 {
            proof {
                assert(spec_pack(cur, kk, 0).len() == 0);
                assert(spec_pack(cur, kk, 0).map_values(tosnip) =~= Seq::<Seq<char>>::empty());
                assert(strings_view(out@) =~= strings_view(out@) + spec_pack(
                    cur,
                    kk,
                    0,
                ).map_values(tosnip));
            }
            return out;
        }
        let content_chars = chars_vec(items[i].content.as_str());
        let trimmed = trim_chars(&content_chars);
        if trimmed.len() == 0 {
            proof {
                assert(spec_trim(cur[0].content).len() == 0);
                assert(spec_pack(cur, kk, bb) == spec_pack(cur.skip(1), kk - 1, bb));
            }
            i = i + 1;
            continue ;
        }
        let allow: usize = if budget_left <= RAG_MAX_MEMORY_CHARS {
            budget_left
        } else {
            RAG_MAX_MEMORY_CHARS
        };
        let trimmed_str = string_from_chars(&trimmed);
        let snippet = if trimmed.len() > allow {
            truncate_for_prompt(&trimmed_str, allow)
        } else {
            trimmed_str
        };
        let used = {
            let sc = chars_vec(snippet.as_str());
            sc.len()
        };
        let ghost spec_snip = (if spec_trim(cur[0].content).len() > (if bb
            <= RAG_MAX_MEMORY_CHARS as int {
            bb
        } else {
            RAG_MAX_MEMORY_CHARS as int
        }) {
            spec_trim(cur[0].content).take(
                if bb <= RAG_MAX_MEMORY_CHARS as int {
                    bb
                } else {
                    RAG_MAX_MEMORY_CHARS as int
                },
            ).push('\u{2026}')
        } else {
            spec_trim(cur[0].content)
        });
        proof {
            assert(snippet@ == spec_snip);
            assert(used as int == spec_snip.len());
        }
        out.push(snippet);
        budget_left = if budget_left >= used {
            budget_left - used
        } else {
            0
        };
        i = i + 1;
        proof {
            let left = if bb - spec_snip.len() >= 0 {
                bb - spec_snip.len()
            } else {
                0
            };
            assert(budget_left as int == left);
            assert(spec_pack(cur, kk, bb) == seq![(cur[0].memory_id, spec_snip)] + spec_pack(
                cur.skip(1),
                kk - 1,
                left,
            ));
            let rest = spec_pack(cur.skip(1), kk - 1, left).map_values(tosnip);
            assert(spec_pack(cur, kk, bb).map_values(tosnip) =~= seq![spec_snip] + rest);
            assert(strings_view(out@) =~= before.push(spec_snip));
            assert(strings_view(out@) + rest =~= before + (seq![spec_snip] + rest));
        }
    }
    proof {
        if i < items@.len() {
            assert(spec_pack(whole.skip(i as int), top_k - i, budget_left as int).len() == 0);
        } else {
            assert(whole.skip(i as int).len() == 0);
            assert(spec_pack(whole.skip(i as int), top_k - i, budget_left as int).len() == 0);
        }
        assert(spec_pack(whole.skip(i as int), top_k - i, budget_left as int).map_values(tosnip)
            =~= Seq::<Seq<char>>::empty());
        assert(strings_view(out@) =~= strings_view(out@) + spec_pack(
            whole.skip(i as int),
            top_k - i,
            budget_left as int,
        ).map_values(tosnip));
    }
    out
}


/// A gathered candidate note: its id, its text, and how many distinct
/// query entities surfaced it.
pub struct Candidate {
    pub memory_id: i64,
    pub content: String,
    pub seed_hits: u64,
}

/// Resolution as the write path sees it: the id belongs to an entity
/// carrying the name, or, when no entity does, to the target of an alias
/// row with that string.
pub open spec fn spec_resolves(s: Store, name: Seq<char>, id: int) -> bool {
    if s.has_entity_name(name) {
        exists|j: int|
            0 <= j < s.ents().len() && (#[trigger] s.ents()[j]).name == name && s.ents()[j].id
                == id
    } else {
        exists|j: int|
            0 <= j < s.als().len() && (#[trigger] s.als()[j]).alias == name && s.als()[j].entity_id
                == id
    }
}

/// The note was surfaced by one of the first `window` query entities:
/// some such entity resolves, and the note is linked to it.
pub open spec fn spec_surfaced(
    s: Store,
    es: Seq<ExtractedEntity>,
    mem: int,
    window: int,
) -> bool {
    exists|k: int, eid: int|
        0 <= k < window && #[trigger] spec_resolves(s, es[k].name@, eid) && s.has_link(mem, eid)
}

/// Surfacing only grows with the window.
pub proof fn lemma_surfaced_widen(s: Store, es: Seq<ExtractedEntity>, mem: int, w1: int, w2: int)
    requires
        spec_surfaced(s, es, mem, w1),
        w1 <= w2,
    ensures
        spec_surfaced(s, es, mem, w2),
{
    let (k0, eid0): (int, int) = choose|k0: int, eid0: int|
        0 <= k0 < w1 && #[trigger] spec_resolves(s, es[k0].name@, eid0) && s.has_link(mem, eid0);
    assert(0 <= k0 < w2 && spec_resolves(s, es[k0].name@, eid0) && s.has_link(mem, eid0));
}

/// Gather candidate notes: for each extracted entity that resolves by
/// exact name or alias, up to the per-entity cap of its most recent linked
/// notes, aggregated by note id with a seed-hit count (which saturates at
/// the entity count, its true ceiling). Every candidate is a real note of
/// the store, linked to some resolved query entity, never the excluded
/// one, and ids are distinct.
pub fn gather_candidates(
    store: &Store,
    entities: &Vec<ExtractedEntity>,
    exclude_memory_id: Option<i64>,
) -> (r: Vec<Candidate>)
    requires
        store.wf(),
    ensures
        forall|a: int, b: int|
            0 <= a < b < r@.len() ==> r@[a].memory_id != r@[b].memory_id,
        forall|a: int|
            0 <= a < r@.len() ==> (match exclude_memory_id {
                Some(x) => (#[trigger] r@[a]).memory_id != x,
                None => true,
            }),
        forall|a: int|
            0 <= a < r@.len() ==> 1 <= (#[trigger] r@[a]).seed_hits <= entities@.len(),
        forall|a: int|
            0 <= a < r@.len() ==> store.has_memory((#[trigger] r@[a]).memory_id as int)
                && r@[a].content@ == store.memory_of(r@[a].memory_id as int).content,
        forall|a: int|
            0 <= a < r@.len() ==> spec_surfaced(
                *store,
                entities@,
                (#[trigger] r@[a]).memory_id as int,
                entities@.len() as int,
            ),
{
    let mut out: Vec<Candidate> = Vec::new();
    let mut i: usize = 0;
    while i < entities.len()
        invariant
            store.wf(),
            i <= entities@.len(),
            forall|a: int, b: int|
                0 <= a < b < out@.len() ==> out@[a].memory_id != out@[b].memory_id,
            forall|a: int|
                0 <= a < out@.len() ==> (match exclude_memory_id {
                    Some(x) => (#[trigger] out@[a]).memory_id != x,
                    None => true,
                }),
            forall|a: int|
                0 <= a < out@.len() ==> 1 <= (#[trigger] out@[a]).seed_hits <= entities@.len(),
            forall|a: int|
                0 <= a < out@.len() ==> store.has_memory((#[trigger] out@[a]).memory_id as int)
                    && out@[a].content@ == store.memory_of(out@[a].memory_id as int).content,
            forall|a: int|
                0 <= a < out@.len() ==> spec_surfaced(
                    *store,
                    entities@,
                    (#[trigger] out@[a]).memory_id as int,
                    i as int,
                ),
        decreases entities@.len() - i,
    {
        let ghost window = i as int;
        match store.find_entity_id_by_name_or_alias(&entities[i].name) {
            None => {
                proof {
                    assert forall|a: int| 0 <= a < out@.len() implies spec_surfaced(
                        *store,
                        entities@,
                        (#[trigger] out@[a]).memory_id as int,
                        window + 1,
                    ) by {
                        lemma_surfaced_widen(
                            *store,
                            entities@,
                            out@[a].memory_id as int,
                            window,
                            window + 1,
                        );
                    }
                }
            },
            Some(eid) => {
                proof {
                    assert(spec_resolves(*store, entities@[i as int].name@, eid as int));
                }
                let memories = store.get_memories_for_entity(eid);
                proof {
                    assert forall|a: int| 0 <= a < out@.len() implies spec_surfaced(
                        *store,
                        entities@,
                        (#[trigger] out@[a]).memory_id as int,
                        window + 1,
                    ) by {
                        lemma_surfaced_widen(
                            *store,
                            entities@,
                            out@[a].memory_id as int,
                            window,
                            window + 1,
                        );
                    }
                }
                let mut j: usize = 0;
                while j < memories.len() && j < RAG_CANDIDATES_PER_ENTITY
                    invariant
                        store.wf(),
                        i < entities@.len(),
                        window == i as int,
                        j <= memories@.len(),
                        j <= RAG_CANDIDATES_PER_ENTITY,
                        spec_resolves(*store, entities@[i as int].name@, eid as int),
                        forall|q: int|
                            0 <= q < memories@.len() ==> store.mems().contains(
                                #[trigger] crate::store::mems_view(memories@)[q],
                            ) && store.has_link(
                                crate::store::mems_view(memories@)[q].id,
                                eid as int,
                            ),
                        forall|a: int, b: int|
                            0 <= a < b < out@.len() ==> out@[a].memory_id != out@[b].memory_id,
                        forall|a: int|
                            0 <= a < out@.len() ==> (match exclude_memory_id {
                                Some(x) => (#[trigger] out@[a]).memory_id != x,
                                None => true,
                            }),
                        forall|a: int|
                            0 <= a < out@.len() ==> 1 <= (#[trigger] out@[a]).seed_hits
                                <= entities@.len(),
                        forall|a: int|
                            0 <= a < out@.len() ==> store.has_memory(
                                (#[trigger] out@[a]).memory_id as int,
                            ) && out@[a].content@ == store.memory_of(
                                out@[a].memory_id as int,
                            ).content,
                        forall|a: int|
                            0 <= a < out@.len() ==> spec_surfaced(
                                *store,
                                entities@,
                                (#[trigger] out@[a]).memory_id as int,
                                window + 1,
                            ),
                    decreases memories@.len() - j,
                {
                    let m = &memories[j];
                    proof {
                        assert(crate::store::mems_view(memories@)[j as int] == m@);
                        assert(store.mems().contains(m@));
                        let w = choose|w: int|
                            0 <= w < store.mems().len() && #[trigger] store.mems()[w] == m@;
                        crate::store::lemma_unique_memory_ix(*store, m@.id, w);
                        assert(store.memory_of(m@.id) == m@);
                    }
                    let skip_this = match exclude_memory_id {
                        Some(x) => m.id == x,
                        None => false,
                    };
                    if !skip_this {
                        let ghost pre = out@;
                        match find_candidate_ix(&out, m.id) {
                            Some(cix) => {
                                let old_hits = out[cix].seed_hits;
                                let cap_hits = entities.len() as u64;
                                let bumped: u64 = if old_hits < cap_hits {
                                    old_hits + 1
                                } else {
                                    old_hits
                                };
                                let replacement = Candidate {
                                    memory_id: out[cix].memory_id,
                                    content: out[cix].content.clone(),
                                    seed_hits: bumped,
                                };
                                out.set(cix, replacement);
                                proof {
                                    assert(forall|a: int|
                                        0 <= a < pre.len() && a != cix ==> #[trigger] out@[a]
                                            == pre[a]);
                                    assert(out@[cix as int].memory_id == pre[cix as int].memory_id);
                                    assert(out@[cix as int].content@ == pre[cix as int].content@);
                                    assert forall|a: int| 0 <= a < out@.len() implies
                                        spec_surfaced(
                                        *store,
                                        entities@,
                                        (#[trigger] out@[a]).memory_id as int,
                                        window + 1,
                                    ) by {
                                        if a < pre.len() && out@[a] == pre[a] {
                                            assert(spec_surfaced(
                                                *store,
                                                entities@,
                                                pre[a].memory_id as int,
                                                window + 1,
                                            ));
                                        } else {
                                            assert(out@[a].memory_id as int == m@.id);
                                            assert(0 <= window < window + 1 && spec_resolves(
                                                *store,
                                                entities@[window].name@,
                                                eid as int,
                                            ) && store.has_link(m@.id, eid as int));
                                        }
                                    }
                                }
                            },
                            None => {
                                out.push(
                                    Candidate {
                                        memory_id: m.id,
                                        content: m.content.clone(),
                                        seed_hits: 1,
                                    },
                                );
                                proof {
                                    assert(forall|a: int|
                                        0 <= a < pre.len() ==> #[trigger] out@[a] == pre[a]);
                                    assert(out@[pre.len() as int].memory_id == m@.id as i64);
                                    assert(out@[pre.len() as int].content@ == m@.content);
                                    assert forall|a: int| 0 <= a < out@.len() implies
                                        spec_surfaced(
                                        *store,
                                        entities@,
                                        (#[trigger] out@[a]).memory_id as int,
                                        window + 1,
                                    ) by {
                                        if a < pre.len() && out@[a] == pre[a] {
                                            assert(spec_surfaced(
                                                *store,
                                                entities@,
                                                pre[a].memory_id as int,
                                                window + 1,
                                            ));
                                        } else {
                                            assert(out@[a].memory_id as int == m@.id);
                                            assert(0 <= window < window + 1 && spec_resolves(
                                                *store,
                                                entities@[window].name@,
                                                eid as int,
                                            ) && store.has_link(m@.id, eid as int));
                                        }
                                    }
                                }
                            },
                        }
                    }
                    j = j + 1;
                }
            },
        }
        i = i + 1;
    }
    out
}

/// Index of a candidate by note id.
fn find_candidate_ix(v: &Vec<Candidate>, memory_id: i64) -> (r: Option<usize>)
    ensures
        match r {
            Some(ix) => ix < v@.len() && v@[ix as int].memory_id == memory_id,
            None => forall|a: int| 0 <= a < v@.len() ==> (#[trigger] v@[a]).memory_id != memory_id,
        },
{
    let mut i: usize = 0;
    while i < v.len()
        invariant
            i <= v@.len(),
            forall|a: int| 0 <= a < i ==> (#[trigger] v@[a]).memory_id != memory_id,
        decreases v@.len() - i,
    {
        if v[i].memory_id == memory_id {
            return Some(i);
        }
        i = i + 1;
    }
    None
}

/// The lowercased, trimmed entity names of at least two characters: the
/// terms whose literal presence in a candidate counts as an entity hit.
pub open spec fn spec_entity_terms(names: Seq<Seq<char>>) -> Seq<Seq<char>> {
    names.map_values(|n: Seq<char>| lower_of(spec_trim(n))).filter(|t: Seq<char>| t.len() >= 2)
}

pub open spec fn names_view(es: Seq<ExtractedEntity>) -> Seq<Seq<char>> {
    Seq::new(es.len(), |i: int| es[i].name@)
}

/// Build the entity terms of a query.
pub fn entity_terms_of(entities: &Vec<ExtractedEntity>) -> (r: Vec<String>)
    ensures
        strings_view(r@) == spec_entity_terms(names_view(entities@)),
{
    let ghost names = names_view(entities@);
    let ghost tolc = |n: Seq<char>| lower_of(spec_trim(n));
    let ghost keep = |t: Seq<char>| t.len() >= 2;
    let mut out: Vec<String> = Vec::new();
    let mut i: usize = 0;
    proof {
        assert(names.take(0).map_values(tolc) =~= Seq::<Seq<char>>::empty());
        assert(strings_view(out@) =~= names.take(0).map_values(tolc).filter(keep));
    }
    while i < entities.len()
        invariant
            names == names_view(entities@),
            tolc == (|n: Seq<char>| lower_of(spec_trim(n))),
            keep == (|t: Seq<char>| t.len() >= 2),
            i <= entities@.len(),
            strings_view(out@) == names.take(i as int).map_values(tolc).filter(keep),
        decreases entities@.len() - i,
    {
        let ghost prefix = names.take(i as int).map_values(tolc);
        let name_chars = chars_vec(entities[i].name.as_str());
        let trimmed = trim_chars(&name_chars);
        let trimmed_str = string_from_chars(&trimmed);
        let lc = lowercase(trimmed_str.as_str());
        proof {
            assert(lc@ == tolc(names[i as int]));
            assert(names.take(i + 1).map_values(tolc) =~= prefix.push(lc@));
            crate::store::lemma_filter_push(prefix, lc@, keep);
        }
        let lc_len = lc.as_str().unicode_len();
        if lc_len >= 2 {
            out.push(lc);
            proof {
                assert(strings_view(out@) =~= prefix.filter(keep).push(
                    names.take(i + 1).map_values(tolc).last(),
                ));
                assert(strings_view(out@) =~= names.take(i + 1).map_values(tolc).filter(keep));
            }
        } else {
            proof {
                assert(strings_view(out@) =~= names.take(i + 1).map_values(tolc).filter(keep));
            }
        }
        i = i + 1;
    }
    proof {
        assert(names.take(names.len() as int) =~= names);
    }
    out
}

/// The identity triple of a candidate, the part scoring must not touch.
pub open spec fn cand_key(c: Candidate) -> (int, Seq<char>, int) {
    (c.memory_id as int, c.content@, c.seed_hits as int)
}

pub open spec fn cand_keys(s: Seq<Candidate>) -> Seq<(int, Seq<char>, int)> {
    Seq::new(s.len(), |i: int| cand_key(s[i]))
}

pub open spec fn ranked_keys(s: Seq<RankedV>) -> Seq<(int, Seq<char>, int)> {
    Seq::new(s.len(), |i: int| (s[i].memory_id, s[i].content, s[i].seed_hits))
}

/// Score, gate and rank candidates by descending score; a stable sort, so
/// equally scored candidates keep their gathered order. Every entry
/// carries the exact score and gate of its own content and seed count,
/// and the candidates come through as a permutation.
pub fn rank_candidates(
    candidates: Vec<Candidate>,
    query_tokens: &Vec<String>,
    entity_terms: &Vec<String>,
) -> (r: Vec<Ranked>)
    ensures
        r@.len() == candidates@.len(),
        forall|a: int, b: int|
            0 <= a < b < r@.len() ==> (#[trigger] ranked_view(r@)[a]).score_num
                >= (#[trigger] ranked_view(r@)[b]).score_num,
        forall|a: int|
            0 <= a < r@.len() ==> spec_ranked_consistent(
                #[trigger] ranked_view(r@)[a],
                strings_view(query_tokens@),
                strings_view(entity_terms@),
            ),
        ranked_keys(ranked_view(r@)).to_multiset() == cand_keys(candidates@).to_multiset(),
{
    let mut scored: Vec<Ranked> = Vec::new();
    let mut i: usize = 0;
    while i < candidates.len()
        invariant
            i <= candidates@.len(),
            scored@.len() == i,
            forall|a: int|
                0 <= a < i ==> spec_ranked_consistent(
                    #[trigger] ranked_view(scored@)[a],
                    strings_view(query_tokens@),
                    strings_view(entity_terms@),
                ),
            forall|a: int|
                0 <= a < i ==> #[trigger] ranked_keys(ranked_view(scored@))[a] == cand_keys(
                    candidates@,
                )[a],
        decreases candidates@.len() - i,
    {
        let ghost pre = scored@;
        let c = &candidates[i];
        let (num, overlap, hits) = memory_relevance_score(
            query_tokens,
            entity_terms,
            &c.content,
            c.seed_hits,
        );
        let qq: u128 = if query_tokens.len() >= 1 {
            cap_u64(query_tokens.len() as u64) as u128
        } else {
            1
        };
        let tt: u128 = if entity_terms.len() >= 1 {
            cap_u64(entity_terms.len() as u64) as u128
        } else {
            1
        };
        proof {
            assert((180 * (qq as int)) * (tt as int) <= 180 * 0x1_0000_0000 * 0x1_0000_0000)
                by (nonlinear_arith)
                requires
                    0 <= qq as int <= 0x1_0000_0000,
                    0 <= tt as int <= 0x1_0000_0000,
            ;
            assert((180 * (qq as int)) * (tt as int) >= 0) by (nonlinear_arith)
                requires
                    0 <= qq as int,
                    0 <= tt as int,
            ;
            lemma_overlap_bounds(
                strings_view(query_tokens@),
                spec_tokenize(candidates@[i as int].content@),
            );
            lemma_hits_bounds(
                strings_view(entity_terms@),
                lower_of(candidates@[i as int].content@),
            );
        }
        let gate = 25u128 * num >= 180u128 * qq * tt || hits > 0 || overlap >= 2;
        scored.push(
            Ranked {
                memory_id: c.memory_id,
                content: c.content.clone(),
                seed_hits: c.seed_hits,
                relevant: gate,
                score_num: num,
            },
        );
        i = i + 1;
        proof {
            assert forall|a: int| 0 <= a < i implies #[trigger] ranked_keys(
                ranked_view(scored@),
            )[a] == cand_keys(candidates@)[a] by {
                if a < i - 1 {
                    assert(scored@[a] == pre[a]);
                    assert(ranked_keys(ranked_view(pre))[a] == cand_keys(candidates@)[a]);
                }
            }
            assert forall|a: int| 0 <= a < i implies spec_ranked_consistent(
                #[trigger] ranked_view(scored@)[a],
                strings_view(query_tokens@),
                strings_view(entity_terms@),
            ) by {
                if a < i - 1 {
                    assert(scored@[a] == pre[a]);
                    assert(spec_ranked_consistent(
                        ranked_view(pre)[a],
                        strings_view(query_tokens@),
                        strings_view(entity_terms@),
                    ));
                }
            }
        }
    }
    proof {
        assert(ranked_keys(ranked_view(scored@)) =~= cand_keys(candidates@));
    }
    sort_ranked_desc(scored, Ghost(strings_view(query_tokens@)), Ghost(strings_view(entity_terms@)))
}

/// Insertion sort of ranked candidates by descending score; stable, a
/// permutation, and element-preserving.
fn sort_ranked_desc(
    v: Vec<Ranked>,
    Ghost(qs): Ghost<Seq<Seq<char>>>,
    Ghost(ts): Ghost<Seq<Seq<char>>>,
) -> (r: Vec<Ranked>)
    requires
        forall|a: int|
            0 <= a < v@.len() ==> spec_ranked_consistent(#[trigger] ranked_view(v@)[a], qs, ts),
    ensures
        r@.len() == v@.len(),
        forall|a: int, b: int|
            0 <= a < b < r@.len() ==> (#[trigger] ranked_view(r@)[a]).score_num
                >= (#[trigger] ranked_view(r@)[b]).score_num,
        forall|a: int|
            0 <= a < r@.len() ==> spec_ranked_consistent(#[trigger] ranked_view(r@)[a], qs, ts),
        ranked_keys(ranked_view(r@)).to_multiset() == ranked_keys(ranked_view(v@)).to_multiset(),
{
    broadcast use vstd::seq_lib::group_to_multiset_ensures;
    broadcast use vstd::seq_lib::to_multiset_insert;

    let mut out: Vec<Ranked> = Vec::new();
    let mut i: usize = 0;
    proof {
        assert(ranked_keys(ranked_view(v@.subrange(0, 0))).to_multiset() =~= ranked_keys(
            ranked_view(out@),
        ).to_multiset());
    }
    while i < v.len()
        invariant
            i <= v@.len(),
            out@.len() == i,
            forall|a: int|
                0 <= a < v@.len() ==> spec_ranked_consistent(
                    #[trigger] ranked_view(v@)[a],
                    qs,
                    ts,
                ),
            forall|a: int, b: int|
                0 <= a < b < out@.len() ==> (#[trigger] ranked_view(out@)[a]).score_num
                    >= (#[trigger] ranked_view(out@)[b]).score_num,
            forall|a: int|
                0 <= a < out@.len() ==> spec_ranked_consistent(
                    #[trigger] ranked_view(out@)[a],
                    qs,
                    ts,
                ),
            ranked_keys(ranked_view(out@)).to_multiset() == ranked_keys(
                ranked_view(v@.subrange(0, i as int)),
            ).to_multiset(),
        decreases v@.len() - i,
    {
        let key = Ranked {
            memory_id: v[i].memory_id,
            content: v[i].content.clone(),
            seed_hits: v[i].seed_hits,
            relevant: v[i].relevant,
            score_num: v[i].score_num,
        };
        proof {
            assert(key@ =~= ranked_view(v@)[i as int]);
        }
        let mut p: usize = 0;
        while p < out.len() && out[p].score_num >= key.score_num
            invariant
                p <= out@.len(),
                forall|a: int|
                    0 <= a < p ==> (#[trigger] ranked_view(out@)[a]).score_num >= key@.score_num,
            decreases out@.len() - p,
        {
            p = p + 1;
        }
        let ghost pre_out = out@;
        let ghost keyv = key@;
        out.insert(p, key);
        proof {
            assert(ranked_view(out@) =~= ranked_view(pre_out).insert(p as int, keyv));
            assert(ranked_keys(ranked_view(out@)) =~= ranked_keys(ranked_view(pre_out)).insert(
                p as int,
                (keyv.memory_id, keyv.content, keyv.seed_hits),
            ));
            vstd::seq_lib::to_multiset_insert(
                ranked_keys(ranked_view(pre_out)),
                p as int,
                (keyv.memory_id, keyv.content, keyv.seed_hits),
            );
            assert(ranked_keys(ranked_view(v@.subrange(0, i + 1))) =~= ranked_keys(
                ranked_view(v@.subrange(0, i as int)),
            ).push((keyv.memory_id, keyv.content, keyv.seed_hits)));
            ranked_keys(ranked_view(v@.subrange(0, i as int))).to_multiset_ensures();
            assert forall|a: int, b: int| 0 <= a < b < out@.len() implies (#[trigger] ranked_view(
                out@,
            )[a]).score_num >= (#[trigger] ranked_view(out@)[b]).score_num by {
                let mv = ranked_view(out@);
                let ov = ranked_view(pre_out);
                if a < p && b == p {
                    assert(mv[a] == ov[a]);
                } else if a == p && b > p {
                    assert(mv[b] == ov[b - 1]);
                    if b - 1 > p {
                        assert(ov[p as int].score_num >= ov[b - 1].score_num);
                    }
                } else if b < p {
                    assert(mv[a] == ov[a] && mv[b] == ov[b]);
                } else if a > p {
                    assert(mv[a] == ov[a - 1] && mv[b] == ov[b - 1]);
                } else {
                    assert(mv[a] == ov[a] && mv[b] == ov[b - 1]);
                    if b - 1 == p {
                    } else {
                        assert(ov[a].score_num >= ov[b - 1].score_num);
                    }
                }
            }
            assert forall|a: int| 0 <= a < out@.len() implies spec_ranked_consistent(
                #[trigger] ranked_view(out@)[a],
                qs,
                ts,
            ) by {
                let ov = ranked_view(pre_out);
                if a < p {
                    assert(ranked_view(out@)[a] == ov[a]);
                } else if a == p {
                    assert(ranked_view(out@)[a] == keyv);
                } else {
                    assert(ranked_view(out@)[a] == ov[a - 1]);
                }
            }
        }
        i = i + 1;
    }
    proof {
        assert(v@.subrange(0, v@.len() as int) =~= v@);
    }
    out
}

/// What connects a retrieval result to the store: the witness list is
/// sorted by descending score; every entry carries the exact score and
/// gate of its own content and seed count against the note's distinct
/// tokens and the query's entity terms; and every entry is a real note of
/// the store, surfaced by a resolved query entity, never the excluded
/// one, with a positive seed count, all ids distinct.
pub open spec fn spec_retrieval_chain(
    s: Store,
    es: Seq<ExtractedEntity>,
    content: Seq<char>,
    exclude_memory_id: Option<i64>,
    rv: Seq<RankedV>,
) -> bool {
    &&& forall|a: int, b: int|
        0 <= a < b < rv.len() ==> (#[trigger] rv[a]).score_num >= (#[trigger] rv[b]).score_num
    &&& forall|a: int|
        0 <= a < rv.len() ==> spec_ranked_consistent(
            #[trigger] rv[a],
            spec_dedup(spec_tokenize(content)),
            spec_entity_terms(names_view(es)),
        )
    &&& forall|a: int|
        0 <= a < rv.len() ==> s.has_memory((#[trigger] rv[a]).memory_id) && rv[a].content
            == s.memory_of(rv[a].memory_id).content
    &&& forall|a: int|
        0 <= a < rv.len() ==> (match exclude_memory_id {
            Some(x) => (#[trigger] rv[a]).memory_id != x as int,
            None => true,
        })
    &&& forall|a: int| 0 <= a < rv.len() ==> 1 <= (#[trigger] rv[a]).seed_hits <= es.len()
    &&& forall|a: int|
        0 <= a < rv.len() ==> spec_surfaced(s, es, (#[trigger] rv[a]).memory_id, es.len() as int)
    &&& forall|a: int, b: int|
        0 <= a < b < rv.len() ==> (#[trigger] rv[a]).memory_id != (#[trigger] rv[b]).memory_id
}

/// Two equal positions make a multiset count of at least two.
proof fn lemma_dup_count<A>(s: Seq<A>, a: int, b: int)
    requires
        0 <= a < b < s.len(),
        s[a] == s[b],
    ensures
        s.to_multiset().count(s[a]) >= 2,
{
    broadcast use vstd::seq_lib::group_to_multiset_ensures;

    s.to_multiset_ensures();
    assert(s.remove(a).to_multiset() =~= s.to_multiset().remove(s[a]));
    assert(s.remove(a)[b - 1] == s[b]);
    assert(s.remove(a).contains(s[a]));
    s.remove(a).to_multiset_ensures();
    assert(s.remove(a).to_multiset().count(s[a]) > 0);
}

/// Select a budgeted, ranked context of historical notes for a fresh one.
///
/// Candidates are gathered through exact-name-or-alias resolution of the
/// extracted entities, scored against the note text, gated, ranked, and
/// greedily packed: the result is exactly the packing of a witness list
/// satisfying `spec_retrieval_chain`. When no query entity surfaces any
/// note, the result is empty -- a valid, common outcome. Each snippet
/// stays within one ellipsis of the per-snippet cap, and the total within
/// one ellipsis per snippet of the budget.
pub fn collect_relevant_historical_memories(
    store: &Store,
    entities: &Vec<ExtractedEntity>,
    new_content: &String,
    exclude_memory_id: Option<i64>,
) -> (r: Vec<String>)
    requires
        store.wf(),
    ensures
        r@.len() <= RAG_TOP_K,
        forall|j: int| 0 <= j < r@.len() ==> (#[trigger] r@[j])@.len() <= RAG_MAX_MEMORY_CHARS + 1,
        total_len(strings_view(r@)) <= RAG_MAX_CONTEXT_CHARS as int + RAG_TOP_K as int,
        (forall|mem: int|
            !spec_surfaced(*store, entities@, mem, entities@.len() as int)) ==> r@.len() == 0,
        exists|rv: Seq<RankedV>|
            #[trigger] spec_retrieval_chain(
                *store,
                entities@,
                new_content@,
                exclude_memory_id,
                rv,
            ) && strings_view(r@) == spec_pack(
                rv,
                RAG_TOP_K as int,
                RAG_MAX_CONTEXT_CHARS as int,
            ).map_values(|p: (int, Seq<char>)| p.1),
{
    let candidates = gather_candidates(store, entities, exclude_memory_id);
    if candidates.len() == 0 {
        let out: Vec<String> = Vec::new();
        proof {
            let rv = Seq::<RankedV>::empty();
            assert(spec_retrieval_chain(
                *store,
                entities@,
                new_content@,
                exclude_memory_id,
                rv,
            ));
            assert(spec_pack(rv, RAG_TOP_K as int, RAG_MAX_CONTEXT_CHARS as int).len() == 0);
            assert(strings_view(out@) =~= spec_pack(
                rv,
                RAG_TOP_K as int,
                RAG_MAX_CONTEXT_CHARS as int,
            ).map_values(|p: (int, Seq<char>)| p.1));
            assert(total_len(strings_view(out@)) == 0);
        }
        return out;
    }
    let raw_tokens = tokenize_for_rag(new_content);
    let query_tokens = dedup_tokens(&raw_tokens);
    let terms = entity_terms_of(entities);
    let ghost cands = candidates@;
    let ranked = rank_candidates(candidates, &query_tokens, &terms);
    let packed = pack_snippets(&ranked, RAG_TOP_K, RAG_MAX_CONTEXT_CHARS);
    proof {
        broadcast use vstd::seq_lib::group_to_multiset_ensures;

        let rv = ranked_view(ranked@);
        let qs = spec_dedup(spec_tokenize(new_content@));
        let ts = spec_entity_terms(names_view(entities@));
        assert(strings_view(query_tokens@) == qs);
        assert(strings_view(terms@) == ts);
        // each ranked entry is one of the gathered candidates
        assert forall|a: int| 0 <= a < rv.len() implies store.has_memory(
            (#[trigger] rv[a]).memory_id,
        ) && rv[a].content == store.memory_of(rv[a].memory_id).content && (
        match exclude_memory_id {
            Some(x) => rv[a].memory_id != x as int,
            None => true,
        }) && 1 <= rv[a].seed_hits <= entities@.len() && spec_surfaced(
            *store,
            entities@,
            rv[a].memory_id,
            entities@.len() as int,
        ) by {
            let ks = ranked_keys(rv);
            ks.to_multiset_ensures();
            cand_keys(cands).to_multiset_ensures();
            assert(ks[a] == (rv[a].memory_id, rv[a].content, rv[a].seed_hits));
            assert(ks.contains(ks[a]));
            assert(ks.to_multiset().count(ks[a]) > 0);
            assert(cand_keys(cands).contains(ks[a]));
            let c = choose|c: int|
                0 <= c < cand_keys(cands).len() && #[trigger] cand_keys(cands)[c] == ks[a];
            assert(cand_key(cands[c]) == ks[a]);
            assert(cands[c].memory_id as int == rv[a].memory_id);
            assert(cands[c].content@ == rv[a].content);
            assert(cands[c].seed_hits as int == rv[a].seed_hits);
        }
        // distinct ids survive the permutation
        assert forall|a: int, b: int| 0 <= a < b < rv.len() implies (#[trigger] rv[a]).memory_id
            != (#[trigger] rv[b]).memory_id by {
            if rv[a].memory_id == rv[b].memory_id {
                let ks = ranked_keys(rv);
                ks.to_multiset_ensures();
                cand_keys(cands).to_multiset_ensures();
                if ks[a] == ks[b] {
                    lemma_dup_count(ks, a, b);
                    assert(cand_keys(cands).to_multiset().count(ks[a]) >= 2);
                    assert(cand_keys(cands).contains(ks[a]));
                    let c1 = choose|c1: int|
                        0 <= c1 < cand_keys(cands).len() && #[trigger] cand_keys(cands)[c1]
                            == ks[a];
                    cand_keys(cands).to_multiset_ensures();
                    assert(cand_keys(cands).remove(c1).to_multiset() =~= cand_keys(
                        cands,
                    ).to_multiset().remove(ks[a]));
                    assert(cand_keys(cands).remove(c1).to_multiset().count(ks[a]) >= 1);
                    cand_keys(cands).remove(c1).to_multiset_ensures();
                    assert(cand_keys(cands).remove(c1).contains(ks[a]));
                    let c2 = choose|c2: int|
                        0 <= c2 < cand_keys(cands).remove(c1).len() && #[trigger] cand_keys(
                            cands,
                        ).remove(c1)[c2] == ks[a];
                    let c2o = if c2 < c1 {
                        c2
                    } else {
                        c2 + 1
                    };
                    assert(cand_keys(cands)[c2o] == ks[a]);
                    assert(c2o != c1);
                    assert(cands[c1].memory_id == cands[c2o].memory_id);
                    assert(false);
                } else {
                    let ks_a = ks[a];
                    let ks_b = ks[b];
                    ks.to_multiset_ensures();
                    assert(ks.contains(ks_a));
                    assert(ks.contains(ks_b));
                    assert(cand_keys(cands).contains(ks_a));
                    assert(cand_keys(cands).contains(ks_b));
                    let c1 = choose|c1: int|
                        0 <= c1 < cand_keys(cands).len() && #[trigger] cand_keys(cands)[c1]
                            == ks_a;
                    let c2 = choose|c2: int|
                        0 <= c2 < cand_keys(cands).len() && #[trigger] cand_keys(cands)[c2]
                            == ks_b;
                    assert(c1 != c2);
                    assert(cands[c1].memory_id == cands[c2].memory_id);
                    assert(false);
                }
            }
        }
        assert(spec_retrieval_chain(*store, entities@, new_content@, exclude_memory_id, rv));
        lemma_pack_len(rv, RAG_TOP_K as int, RAG_MAX_CONTEXT_CHARS as int);
        lemma_pack_budget(rv, RAG_TOP_K as int, RAG_MAX_CONTEXT_CHARS as int);
        assert(strings_view(packed@).len() == packed@.len());
        let snips = spec_pack(rv, RAG_TOP_K as int, RAG_MAX_CONTEXT_CHARS as int).map_values(
            |p: (int, Seq<char>)| p.1,
        );
        assert(strings_view(packed@) == snips);
        assert forall|j: int| 0 <= j < packed@.len() implies (#[trigger] packed@[j])@.len()
            <= RAG_MAX_MEMORY_CHARS + 1 by {
            assert(packed@[j]@ == snips[j]);
            assert(snips[j] == spec_pack(rv, RAG_TOP_K as int, RAG_MAX_CONTEXT_CHARS as int)[j].1);
        }
        // the no-candidate hypothesis cannot hold here
        if forall|mem: int| !spec_surfaced(*store, entities@, mem, entities@.len() as int) {
            assert(spec_surfaced(
                *store,
                entities@,
                cands[0].memory_id as int,
                entities@.len() as int,
            ));
            assert(false);
        }
    }
    packed
}

/// Total character count of a snippet list./// Total character count of a snippet list.
pub open spec fn total_len(ss: Seq<Seq<char>>) -> int
    decreases ss.len(),
{
    if ss.len() == 0 {
        0
    } else {
        ss[0].len() + total_len(ss.skip(1))
    }
}

/// A packing respects the caps: each snippet is at most one ellipsis past
/// the per-snippet cap, and the total runs at most one ellipsis per
/// selected snippet past the budget.
pub proof fn lemma_pack_budget(items: Seq<RankedV>, k: int, budget: int)
    requires
        budget >= 0,
    ensures
        forall|j: int|
            0 <= j < spec_pack(items, k, budget).len() ==> (#[trigger] spec_pack(
                items,
                k,
                budget,
            )[j]).1.len() <= RAG_MAX_MEMORY_CHARS + 1,
        total_len(spec_pack(items, k, budget).map_values(|p: (int, Seq<char>)| p.1)) <= budget
            + spec_pack(items, k, budget).len(),
    decreases items.len(),
{
    let packed = spec_pack(items, k, budget);
    let snips = packed.map_values(|p: (int, Seq<char>)| p.1);
    if items.len() == 0 || k <= 0 {
        assert(total_len(snips) == 0);
    } else if !items[0].relevant {
        lemma_pack_budget(items.skip(1), k - 1, budget);
        assert(packed == spec_pack(items.skip(1), k - 1, budget));
    } else if budget <= 0 {
        assert(total_len(snips) == 0);
    } else {
        let trimmed = crate::text::spec_trim(items[0].content);
        if trimmed.len() == 0 {
            lemma_pack_budget(items.skip(1), k - 1, budget);
            assert(packed == spec_pack(items.skip(1), k - 1, budget));
        } else {
            let cap = RAG_MAX_MEMORY_CHARS as int;
            let allow = if budget <= cap {
                budget
            } else {
                cap
            };
            let snippet = if trimmed.len() > allow {
                trimmed.take(allow).push('\u{2026}')
            } else {
                trimmed
            };
            let used = snippet.len() as int;
            let left = if budget - used >= 0 {
                budget - used
            } else {
                0
            };
            lemma_pack_budget(items.skip(1), k - 1, left);
            let rest = spec_pack(items.skip(1), k - 1, left);
            assert(packed == seq![(items[0].memory_id, snippet)] + rest);
            assert(snips =~= seq![snippet] + rest.map_values(|p: (int, Seq<char>)| p.1));
            assert(snips[0] == snippet);
            assert(snips.skip(1) =~= rest.map_values(|p: (int, Seq<char>)| p.1));
            assert(total_len(snips) == used + total_len(
                rest.map_values(|p: (int, Seq<char>)| p.1),
            ));
            assert(used <= allow + 1);
            assert forall|j: int| 0 <= j < packed.len() implies (#[trigger] packed[j]).1.len()
                <= RAG_MAX_MEMORY_CHARS + 1 by {
                if j > 0 {
                    assert(packed[j] == rest[j - 1]);
                }
            }
        }
    }
}

/// A packing never selects more than `k` entries.
pub proof fn lemma_pack_len(items: Seq<RankedV>, k: int, budget: int)
    ensures
        spec_pack(items, k, budget).len() <= (if k >= 0 {
            k
        } else {
            0
        }),
    decreases items.len(),
{
    if items.len() == 0 || k <= 0 {
    } else {
        lemma_pack_len(items.skip(1), k - 1, budget);
        if items[0].relevant && budget > 0 && spec_trim(items[0].content).len() > 0 {
            let cap = RAG_MAX_MEMORY_CHARS as int;
            let allow = if budget <= cap { budget } else { cap };
            let trimmed = spec_trim(items[0].content);
            let snippet = if trimmed.len() > allow {
                trimmed.take(allow).push('\u{2026}')
            } else {
                trimmed
            };
            let used = snippet.len() as int;
            let left = if budget - used >= 0 { budget - used } else { 0 };
            lemma_pack_len(items.skip(1), k - 1, left);
        }
    }
}


} // verus!
