//! The part of the embedder that is plain logic: choosing the vector
//! dimension for a configured model identifier. Tokenization and the
//! forward pass themselves live outside the verified library.

use vstd::prelude::*;
use crate::strutil::str_eq;

verus! {

broadcast use vstd::string::group_string_axioms;

/// The hidden dimension that a model identifier selects; unknown
/// identifiers fall back to 384.
pub open spec fn spec_model_dimension(model_type: Seq<char>) -> usize {
    if model_type == "all-minilm-l6-v2"@ {
        384
    } else if model_type == "bge-small-en-v1.5"@ {
        384
    } else if model_type == "all-mpnet-base-v2"@ {
        768
    } else if model_type == "codebert-base"@ || model_type == "unixcoder-base"@ {
        768
    } else {
        384
    }
}

/// Vector dimension for a model identifier.
pub fn model_dimension(model_type: &str) -> (d: usize)
    ensures
        d == spec_model_dimension(model_type@),
{
    if str_eq(model_type, "all-minilm-l6-v2") {
        384
    } else if str_eq(model_type, "bge-small-en-v1.5") {
        384
    } else if str_eq(model_type, "all-mpnet-base-v2") {
        768
    } else if str_eq(model_type, "codebert-base") || str_eq(model_type, "unixcoder-base") {
        768
    } else {
        384
    }
}

/// The download sources for a model identifier: model graph, tokenizer,
/// and a short description. Unknown identifiers fall back to the
/// general-purpose default.
pub fn model_source(model_type: &str) -> (r: (&'static str, &'static str, &'static str))
    ensures
        model_type@ == "all-mpnet-base-v2"@ ==> {
            &&& r.0@ == "https://huggingface.co/optimum/all-mpnet-base-v2/resolve/main/model.onnx"@
            &&& r.1@ == "https://huggingface.co/optimum/all-mpnet-base-v2/resolve/main/tokenizer.json"@
            &&& r.2@ == "Higher quality embeddings (768 dim, recommended for code)"@
        },
        model_type@ == "bge-small-en-v1.5"@ ==> {
            &&& r.0@ == "https://huggingface.co/BAAI/bge-small-en-v1.5/resolve/main/onnx/model.onnx"@
            &&& r.1@ == "https://huggingface.co/BAAI/bge-small-en-v1.5/resolve/main/tokenizer.json"@
            &&& r.2@ == "BGE small embeddings (384 dim, good quality/speed balance)"@
        },
        model_type@ == "all-minilm-l6-v2"@ ==> {
            &&& r.0@ == "https://huggingface.co/optimum/all-MiniLM-L6-v2/resolve/main/model.onnx"@
            &&& r.1@ == "https://huggingface.co/optimum/all-MiniLM-L6-v2/resolve/main/tokenizer.json"@
            &&& r.2@ == "General-purpose embeddings (384 dim, fast)"@
        },
        (model_type@ != "all-mpnet-base-v2"@ && model_type@ != "bge-small-en-v1.5"@
            && model_type@ != "all-minilm-l6-v2"@) ==> {
            &&& r.0@ == "https://huggingface.co/optimum/all-MiniLM-L6-v2/resolve/main/model.onnx"@
            &&& r.1@ == "https://huggingface.co/optimum/all-MiniLM-L6-v2/resolve/main/tokenizer.json"@
            &&& r.2@ == "Default: all-minilm-l6-v2 (384 dim)"@
        },
{
    proof {
        reveal_strlit("all-minilm-l6-v2");
        reveal_strlit("all-mpnet-base-v2");
        reveal_strlit("bge-small-en-v1.5");
        assert("all-minilm-l6-v2"@ != "all-mpnet-base-v2"@) by {
            assert("all-minilm-l6-v2"@.len() == 16);
            assert("all-mpnet-base-v2"@.len() == 17);
        }
        assert("all-minilm-l6-v2"@ != "bge-small-en-v1.5"@) by {
            assert("all-minilm-l6-v2"@.len() == 16);
            assert("bge-small-en-v1.5"@.len() == 17);
        }
        assert("all-mpnet-base-v2"@ != "bge-small-en-v1.5"@) by {
            assert("all-mpnet-base-v2"@[0] == 'a');
            assert("bge-small-en-v1.5"@[0] == 'b');
        }
    }
    if str_eq(model_type, "all-minilm-l6-v2") {
        (
            "https://huggingface.co/optimum/all-MiniLM-L6-v2/resolve/main/model.onnx",
            "https://huggingface.co/optimum/all-MiniLM-L6-v2/resolve/main/tokenizer.json",
            "General-purpose embeddings (384 dim, fast)",
        )
    } else if str_eq(model_type, "all-mpnet-base-v2") {
        (
            "https://huggingface.co/optimum/all-mpnet-base-v2/resolve/main/model.onnx",
            "https://huggingface.co/optimum/all-mpnet-base-v2/resolve/main/tokenizer.json",
            "Higher quality embeddings (768 dim, recommended for code)",
        )
    } else if str_eq(model_type, "bge-small-en-v1.5") {
        (
            "https://huggingface.co/BAAI/bge-small-en-v1.5/resolve/main/onnx/model.onnx",
            "https://huggingface.co/BAAI/bge-small-en-v1.5/resolve/main/tokenizer.json",
            "BGE small embeddings (384 dim, good quality/speed balance)",
        )
    } else {
        (
            "https://huggingface.co/optimum/all-MiniLM-L6-v2/resolve/main/model.onnx",
            "https://huggingface.co/optimum/all-MiniLM-L6-v2/resolve/main/tokenizer.json",
            "Default: all-minilm-l6-v2 (384 dim)",
        )
    }
}

} // verus!
