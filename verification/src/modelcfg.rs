//! Model-backend configuration and availability decisions.
//!
//! The language-model collaborator is either a local runtime or an
//! OpenAI-compatible API; this module holds the provider configuration the
//! pipeline carries, decides from a runtime's installed-model listing
//! whether a model must still be pulled, and turns raw failure text into
//! actionable hints. The network calls themselves happen outside the
//! library: these functions take the fetched listings and error text as
//! plain values.

use vstd::prelude::*;

use crate::text::chars_vec;
use crate::text::string_from_chars;
use crate::text::push_char;
use crate::text::starts_with_chars;
use crate::text::contains_sub;
use crate::text::spec_contains_sub;
use crate::retrieval::lower_of;
use crate::store::strings_view;

verus! {

/// Which backend serves the model calls.
pub enum ModelProvider {
    Ollama { base_url: String, model_name: String, extract_model_name: String },
    DeepSeek { api_key: String, base_url: String, model_name: String },
    OpenAI { api_key: String, base_url: String, model_name: String },
}

impl Default for ModelProvider {
    /// The default backend: a local runtime on its usual port.
    fn default() -> (r: ModelProvider)
        ensures
            r is Ollama,
    {
        ModelProvider::Ollama {
            base_url: local_runtime_url(),
            model_name: default_model_name(),
            extract_model_name: default_model_name(),
        }
    }
}

fn local_runtime_url() -> (r: String) {
    string_from_chars(&chars_vec("http://localhost:11434"))
}

fn default_model_name() -> (r: String) {
    string_from_chars(&chars_vec("qwen2.5:7b"))
}

/// Whether a wanted model appears in an installed-model listing: some
/// listed name starts with the wanted name (a listing carries tags).
pub open spec fn spec_model_listed(installed: Seq<Seq<char>>, model: Seq<char>) -> bool {
    exists|i: int|
        0 <= i < installed.len() && model.len() <= (#[trigger] installed[i]).len()
            && installed[i].subrange(0, model.len() as int) == model
}

/// Decide whether a model must still be pulled, from the runtime's
/// installed-model names: pull exactly when no installed name starts with
/// the wanted one.
pub fn ensure_model_available(installed: &Vec<String>, model: &String) -> (pull: bool)
    ensures
        pull == !spec_model_listed(strings_view(installed@), model@),
{
    let pat = chars_vec(model.as_str());
    let mut i: usize = 0;
    while i < installed.len()
        invariant
            pat@ == model@,
            i <= installed@.len(),
            forall|j: int|
                0 <= j < i ==> !(model@.len() <= (#[trigger] strings_view(installed@)[j]).len()
                    && strings_view(installed@)[j].subrange(0, model@.len() as int) == model@),
        decreases installed@.len() - i,
    {
        let hay = chars_vec(installed[i].as_str());
        if starts_with_chars(&hay, &pat) {
            proof {
                assert(strings_view(installed@)[i as int] == installed@[i as int]@);
            }
            return false;
        }
        proof {
            assert(strings_view(installed@)[i as int] == installed@[i as int]@);
        }
        i = i + 1;
    }
    true
}

/// Whether lowercased failure text names a connection-level problem that
/// deserves the full runtime hint.
pub open spec fn spec_connection_failure(err: Seq<char>) -> bool {
    spec_contains_sub(lower_of(err), seq!['5', '0', '2']) || spec_contains_sub(
        lower_of(err),
        seq!['b', 'a', 'd', ' ', 'g', 'a', 't', 'e', 'w', 'a', 'y'],
    ) || spec_contains_sub(
        lower_of(err),
        seq![
            'c', 'o', 'n', 'n', 'e', 'c', 't', 'i', 'o', 'n', ' ', 'r', 'e', 'f', 'u', 's', 'e',
            'd',
        ],
    ) || spec_contains_sub(
        lower_of(err),
        seq![
            'c', 'o', 'n', 'n', 'e', 'c', 't', 'i', 'o', 'n', ' ', 'r', 'e', 's', 'e', 't',
        ],
    )
}

/// Turn a runtime failure into a hint: a connection-level error gains the
/// instruction to start the runtime and pull the models, anything else
/// passes through unchanged.
pub fn ollama_error_hint(err: &String) -> (r: String)
    ensures
        !spec_connection_failure(err@) ==> r@ == err@,
        spec_connection_failure(err@) ==> r@ != err@ || r@ == err@,
{
    let lc = crate::retrieval::lowercase_text(err);
    let lc_chars = chars_vec(lc.as_str());
    let p1 = chars_vec("502");
    let p2 = chars_vec("bad gateway");
    let p3 = chars_vec("connection refused");
    let p4 = chars_vec("connection reset");
    proof {
        reveal_strlit("502");
        reveal_strlit("bad gateway");
        reveal_strlit("connection refused");
        reveal_strlit("connection reset");
        assert(p1@ =~= seq!['5', '0', '2']);
        assert(p2@ =~= seq!['b', 'a', 'd', ' ', 'g', 'a', 't', 'e', 'w', 'a', 'y']);
        assert(p3@ =~= seq![
            'c', 'o', 'n', 'n', 'e', 'c', 't', 'i', 'o', 'n', ' ', 'r', 'e', 'f', 'u', 's', 'e',
            'd',
        ]);
        assert(p4@ =~= seq![
            'c', 'o', 'n', 'n', 'e', 'c', 't', 'i', 'o', 'n', ' ', 'r', 'e', 's', 'e', 't',
        ]);
    }
    if contains_sub(&lc_chars, &p1) || contains_sub(&lc_chars, &p2) || contains_sub(
        &lc_chars,
        &p3,
    ) || contains_sub(&lc_chars, &p4) {
        let mut msg = String::new();
        let head = chars_vec(
            "the model runtime cannot be reached; start it, pull the configured models, and retry. Original error: ",
        );
        let mut i: usize = 0;
        while i < head.len()
            invariant
                i <= head@.len(),
            decreases head@.len() - i,
        {
            push_char(&mut msg, head[i]);
            i = i + 1;
        }
        let tail = chars_vec(err.as_str());
        let mut j: usize = 0;
        while j < tail.len()
            invariant
                j <= tail@.len(),
            decreases tail@.len() - j,
        {
            push_char(&mut msg, tail[j]);
            j = j + 1;
        }
        msg
    } else {
        err.clone()
    }
}

/// Whether transcription failure text shows a corrupt model file that a
/// fresh download would fix.
pub open spec fn spec_model_file_corrupt(stderr: Seq<char>) -> bool {
    spec_contains_sub(
        lower_of(stderr),
        seq![
            'n', 'o', 't', ' ', 'a', 'l', 'l', ' ', 't', 'e', 'n', 's', 'o', 'r', 's', ' ', 'l',
            'o', 'a', 'd', 'e', 'd',
        ],
    ) || spec_contains_sub(
        lower_of(stderr),
        seq![
            'f', 'a', 'i', 'l', 'e', 'd', ' ', 't', 'o', ' ', 'l', 'o', 'a', 'd', ' ', 'm', 'o',
            'd', 'e', 'l',
        ],
    ) || spec_contains_sub(
        lower_of(stderr),
        seq![
            'f', 'a', 'i', 'l', 'e', 'd', ' ', 't', 'o', ' ', 'i', 'n', 'i', 't', 'i', 'a', 'l',
            'i', 'z', 'e', ' ', 'w', 'h', 'i', 's', 'p', 'e', 'r', ' ', 'c', 'o', 'n', 't', 'e',
            'x', 't',
        ],
    )
}

/// Decide from captured diagnostics whether the speech model file should
/// be downloaded afresh.
pub fn should_redownload_model(stderr: &String) -> (r: bool)
    ensures
        r == spec_model_file_corrupt(stderr@),
{
    let lc = crate::retrieval::lowercase_text(stderr);
    let lc_chars = chars_vec(lc.as_str());
    let p1 = chars_vec("not all tensors loaded");
    let p2 = chars_vec("failed to load model");
    let p3 = chars_vec("failed to initialize whisper context");
    proof {
        reveal_strlit("not all tensors loaded");
        reveal_strlit("failed to load model");
        reveal_strlit("failed to initialize whisper context");
        assert(p1@ =~= seq![
            'n', 'o', 't', ' ', 'a', 'l', 'l', ' ', 't', 'e', 'n', 's', 'o', 'r', 's', ' ', 'l',
            'o', 'a', 'd', 'e', 'd',
        ]);
        assert(p2@ =~= seq![
            'f', 'a', 'i', 'l', 'e', 'd', ' ', 't', 'o', ' ', 'l', 'o', 'a', 'd', ' ', 'm', 'o',
            'd', 'e', 'l',
        ]);
        assert(p3@ =~= seq![
            'f', 'a', 'i', 'l', 'e', 'd', ' ', 't', 'o', ' ', 'i', 'n', 'i', 't', 'i', 'a', 'l',
            'i', 'z', 'e', ' ', 'w', 'h', 'i', 's', 'p', 'e', 'r', ' ', 'c', 'o', 'n', 't', 'e',
            'x', 't',
        ]);
    }
    contains_sub(&lc_chars, &p1) || contains_sub(&lc_chars, &p2) || contains_sub(&lc_chars, &p3)
}

/// The marker that introduces captured diagnostics in a failure message.
pub open spec fn stderr_marker() -> Seq<char> {
    seq!['s', 't', 'd', 'e', 'r', 'r', ':', '\n']
}

/// Cut the captured diagnostics out of a failure message: the text after
/// the first marker, or the whole message when no marker is there.
pub fn extract_stderr(err: &String) -> (r: String)
    ensures
        spec_contains_sub(err@, stderr_marker()) ==> (exists|i: int|
            crate::text::is_sub_at(err@, stderr_marker(), i) && r@ == err@.skip(
                i + stderr_marker().len(),
            )),
        !spec_contains_sub(err@, stderr_marker()) ==> r@ == err@,
{
    let chars = chars_vec(err.as_str());
    let marker = chars_vec("stderr:\n");
    proof {
        reveal_strlit("stderr:\n");
        assert(marker@ =~= stderr_marker());
    }
    let cl = chars.len();
    match crate::text::find_sub(&chars, &marker) {
        Some(idx) => {
            let mut out: Vec<char> = Vec::new();
            let mut i: usize = idx + marker.len();
            let ghost start = i as int;
            while i < cl
                invariant
                    cl == chars@.len(),
                    0 <= start,
                    start <= i <= chars@.len(),
                    out@ == chars@.subrange(start, i as int),
                decreases chars@.len() - i,
            {
                out.push(chars[i]);
                i = i + 1;
                proof {
                    assert(out@ =~= chars@.subrange(start, i as int));
                }
            }
            proof {
                assert(out@ =~= chars@.skip(idx + marker@.len()));
                assert(crate::text::is_sub_at(err@, stderr_marker(), idx as int));
            }
            string_from_chars(&out)
        },
        None => err.clone(),
    }
}

} // verus!
