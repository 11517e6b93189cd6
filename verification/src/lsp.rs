//! Language-server plumbing that does not talk to a server: which language a
//! file is in, which server speaks it, how files are named to it, and how
//! its completion answers become completion items.
use vstd::prelude::*;
use crate::text::{chars_of, concat};

verus! {

/// A completion offered by a language server.
#[derive(Debug, Clone)]
pub struct CompletionItem {
    pub label: String,
    pub insert_text: String,
}

/// Whether `a` and `b` hold the same characters.
pub fn same_str(a: &str, b: &str) -> (r: bool)
    ensures
        r == (a@ == b@),
{
    let ca = chars_of(a);
    let cb = chars_of(b);
    if ca.len() != cb.len() {
        return false;
    }
    let mut i: usize = 0;
    while i < ca.len()
        invariant
            ca@ == a@,
            cb@ == b@,
            ca.len() == cb.len(),
            i <= ca.len(),
            forall|j: int| 0 <= j < i ==> a@[j] == b@[j],
        decreases ca.len() - i,
    {
        if ca[i] != cb[i] {
            return false;
        }
        i = i + 1;
    }
    proof {
        assert(a@ =~= b@);
    }
    true
}

/// The language identifier for a file extension.
pub open spec fn language_of(ext: Seq<char>) -> Option<Seq<char>> {
    if ext == "rs"@ {
        Some("rust"@)
    } else if ext == "py"@ || ext == "pyi"@ {
        Some("python"@)
    } else if ext == "c"@ || ext == "h"@ {
        Some("c"@)
    } else if ext == "cpp"@ || ext == "cc"@ || ext == "cxx"@ || ext == "hpp"@ || ext == "hxx"@ {
        Some("cpp"@)
    } else if ext == "js"@ || ext == "mjs"@ || ext == "cjs"@ {
        Some("javascript"@)
    } else if ext == "jsx"@ {
        Some("javascriptreact"@)
    } else if ext == "ts"@ || ext == "mts"@ {
        Some("typescript"@)
    } else if ext == "tsx"@ {
        Some("typescriptreact"@)
    } else if ext == "go"@ {
        Some("go"@)
    } else {
        None
    }
}

/// Returns LSP language identifier for a file extension.
pub fn language_id(ext: &str) -> (r: Option<&'static str>)
    ensures
        match r {
            Some(l) => language_of(ext@) == Some(l@),
            None => language_of(ext@) is None,
        },
{
    if same_str(ext, "rs") {
        Some("rust")
    } else if same_str(ext, "py") || same_str(ext, "pyi") {
        Some("python")
    } else if same_str(ext, "c") || same_str(ext, "h") {
        Some("c")
    } else if same_str(ext, "cpp") || same_str(ext, "cc") || same_str(ext, "cxx") || same_str(
        ext,
        "hpp",
    ) || same_str(ext, "hxx") {
        Some("cpp")
    } else if same_str(ext, "js") || same_str(ext, "mjs") || same_str(ext, "cjs") {
        Some("javascript")
    } else if same_str(ext, "jsx") {
        Some("javascriptreact")
    } else if same_str(ext, "ts") || same_str(ext, "mts") {
        Some("typescript")
    } else if same_str(ext, "tsx") {
        Some("typescriptreact")
    } else if same_str(ext, "go") {
        Some("go")
    } else {
        None
    }
}

/// The language server for a language: its program and its arguments.
pub open spec fn server_of(lang: Seq<char>) -> Option<(Seq<char>, Seq<Seq<char>>)> {
    if lang == "rust"@ {
        Some(("rust-analyzer"@, seq![]))
    } else if lang == "python"@ {
        Some(("pylsp"@, seq![]))
    } else if lang == "c"@ || lang == "cpp"@ {
        Some(("clangd"@, seq![]))
    } else if lang == "javascript"@ || lang == "javascriptreact"@ || lang == "typescript"@ || lang
        == "typescriptreact"@ {
        Some(("typescript-language-server"@, seq!["--stdio"@]))
    } else if lang == "go"@ {
        Some(("gopls"@, seq![]))
    } else {
        None
    }
}

/// The views of a list of string slices.
pub open spec fn str_views(v: Seq<&str>) -> Seq<Seq<char>> {
    v.map_values(|s: &str| s@)
}

/// The language server to start for a language: its program and arguments.
pub fn server_command(lang: &str) -> (r: Option<(&'static str, &'static [&'static str])>)
    ensures
        match r {
            Some((cmd, args)) => server_of(lang@) == Some((cmd@, str_views(args@))),
            None => server_of(lang@) is None,
        },
{
    let none: &'static [&'static str] = &[];
    let stdio: &'static [&'static str] = &["--stdio"];
    proof {
        assert(str_views(none@) =~= Seq::<Seq<char>>::empty());
        assert(str_views(stdio@) =~= seq!["--stdio"@]);
    }
    if same_str(lang, "rust") {
        Some(("rust-analyzer", none))
    } else if same_str(lang, "python") {
        Some(("pylsp", none))
    } else if same_str(lang, "c") || same_str(lang, "cpp") {
        Some(("clangd", none))
    } else if same_str(lang, "javascript") || same_str(lang, "javascriptreact") || same_str(
        lang,
        "typescript",
    ) || same_str(lang, "typescriptreact") {
        Some(("typescript-language-server", stdio))
    } else if same_str(lang, "go") {
        Some(("gopls", none))
    } else {
        None
    }
}

/// The `file://` URI that names the file at `path` to a language server.
pub fn file_uri(path: &str) -> (r: String)
    ensures
        r@ == "file://"@ + path@,
{
    concat("file://", path)
}

/// One entry of a completion answer: its `label` and `insertText` fields,
/// where they are strings.
pub struct CompletionCandidate {
    pub label: Option<String>,
    pub insert_text: Option<String>,
}

pub open spec fn opt_view(o: Option<String>) -> Option<Seq<char>> {
    match o {
        Some(t) => Some(t@),
        None => None,
    }
}

/// An answer entry as plain values: its label and its text to insert.
pub open spec fn candidate_view(c: CompletionCandidate) -> (Option<Seq<char>>, Option<Seq<char>>) {
    (opt_view(c.label), opt_view(c.insert_text))
}

pub open spec fn candidate_views(cs: Seq<CompletionCandidate>) -> Seq<(Option<Seq<char>>, Option<Seq<char>>)> {
    cs.map_values(|c: CompletionCandidate| candidate_view(c))
}

/// The completion item an answer entry stands for: none without a label;
/// the text to insert defaults to the label.
pub open spec fn item_of(c: (Option<Seq<char>>, Option<Seq<char>>)) -> Option<(Seq<char>, Seq<char>)> {
    match c.0 {
        Some(l) => Some(
            (
                l,
                match c.1 {
                    Some(t) => t,
                    None => l,
                },
            ),
        ),
        None => None,
    }
}

/// The items of the first `n` entries, in order, skipping those without a label.
pub open spec fn items_of(cs: Seq<(Option<Seq<char>>, Option<Seq<char>>)>, n: int) -> Seq<(Seq<char>, Seq<char>)>
    decreases n,
{
    if n <= 0 {
        seq![]
    } else {
        let r = items_of(cs, n - 1);
        match item_of(cs[n - 1]) {
            Some(it) => r.push(it),
            None => r,
        }
    }
}

/// The items of an answer's entries: the labelled ones among its first twenty.
pub open spec fn answer_items(cs: Seq<(Option<Seq<char>>, Option<Seq<char>>)>) -> Seq<(Seq<char>, Seq<char>)> {
    items_of(cs, if cs.len() < 20 { cs.len() as int } else { 20 })
}

pub open spec fn item_views(v: Seq<CompletionItem>) -> Seq<(Seq<char>, Seq<char>)> {
    v.map_values(|i: CompletionItem| (i.label@, i.insert_text@))
}

/// The completion items of an answer: the labelled ones among its first twenty entries.
pub fn completion_items(cands: &Vec<CompletionCandidate>) -> (r: Vec<CompletionItem>)
    ensures
        item_views(r@) == answer_items(candidate_views(cands@)),
{
    let n = if cands.len() < 20 {
        cands.len()
    } else {
        20
    };
    let mut out: Vec<CompletionItem> = Vec::new();
    let mut i: usize = 0;
    proof {
        assert(item_views(out@) =~= items_of(candidate_views(cands@), 0));
    }
    while i < n
        invariant
            n <= cands.len(),
            i <= n,
            item_views(out@) == items_of(candidate_views(cands@), i as int),
        decreases n - i,
    {
        let c = &cands[i];
        match &c.label {
            Some(label) => {
                let insert_text = match &c.insert_text {
                    Some(t) => t.clone(),
                    None => label.clone(),
                };
                let ghost prev = out@;
                out.push(CompletionItem { label: label.clone(), insert_text });
                proof {
                    assert(item_views(out@) =~= item_views(prev).push(item_of(candidate_views(cands@)[i as int])->0));
                }
            },
            None => {},
        }
        i = i + 1;
    }
    out
}

} // verus!
