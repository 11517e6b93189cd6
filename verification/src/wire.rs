//! Reading a language server's messages: the header lines that frame each
//! message, and what an incoming message means to the client.
use vstd::prelude::*;
use crate::chars::{is_whitespace, whitespace};
use crate::text::{chars_of, string_views, substring};
use crate::words::starts_with;
use serde_json::{from_slice, Value};
use crate::lsp::{CompletionCandidate, CompletionItem, answer_items, candidate_views, completion_items, item_views};

verus! {

// ── Trimming ──────────────────────────────────────────────────────────────────

/// `s` without the whitespace at its start.
pub open spec fn trim_start_ws(s: Seq<char>) -> Seq<char>
    decreases s.len(),
{
    if s.len() > 0 && whitespace(s[0]) {
        trim_start_ws(s.drop_first())
    } else {
        s
    }
}

/// `s` without the whitespace at its end.
pub open spec fn trim_end_ws(s: Seq<char>) -> Seq<char>
    decreases s.len(),
{
    if s.len() > 0 && whitespace(s.last()) {
        trim_end_ws(s.drop_last())
    } else {
        s
    }
}

/// `s` without whitespace at either end, as `str::trim` leaves it.
pub open spec fn trim_ws(s: Seq<char>) -> Seq<char> {
    trim_end_ws(trim_start_ws(s))
}

/// `s` without whitespace at either end.
pub fn trim(s: &str) -> (r: String)
    ensures
        r@ == trim_ws(s@),
{
    let cs = chars_of(s);
    let mut i: usize = 0;
    proof {
        assert(s@.skip(0) =~= s@);
    }
    while i < cs.len() && is_whitespace(cs[i])
        invariant
            cs@ == s@,
            i <= cs.len(),
            trim_start_ws(s@) == trim_start_ws(s@.skip(i as int)),
        decreases cs.len() - i,
    {
        proof {
            assert(s@.skip(i as int).drop_first() =~= s@.skip(i + 1));
        }
        i = i + 1;
    }
    proof {
        if i == cs.len() {
            assert(s@.skip(i as int).len() == 0);
        }
        assert(trim_start_ws(s@) == s@.skip(i as int));
        assert(s@.skip(i as int) =~= s@.subrange(i as int, cs.len() as int));
    }
    let mut j: usize = cs.len();
    while j > i && is_whitespace(cs[j - 1])
        invariant
            cs@ == s@,
            i <= j <= cs.len(),
            trim_ws(s@) == trim_end_ws(s@.subrange(i as int, j as int)),
        decreases j,
    {
        proof {
            assert(s@.subrange(i as int, j as int).drop_last() =~= s@.subrange(i as int, j - 1));
        }
        j = j - 1;
    }
    proof {
        if j == i {
            assert(s@.subrange(i as int, j as int).len() == 0);
        }
    }
    substring(s, i, j)
}

// ── Decimal numbers ───────────────────────────────────────────────────────────

pub open spec fn is_digit(c: char) -> bool {
    '0' <= c <= '9'
}

pub open spec fn all_digits(d: Seq<char>) -> bool {
    forall|i: int| 0 <= i < d.len() ==> is_digit(#[trigger] d[i])
}

/// The value of the decimal digits `d`.
pub open spec fn digits_value(d: Seq<char>) -> int
    decreases d.len(),
{
    if d.len() == 0 {
        0
    } else {
        digits_value(d.drop_last()) * 10 + (d.last() as int - '0' as int)
    }
}

/// What `str::parse::<usize>` makes of `s`: an optional `+` followed by
/// at least one decimal digit, whose value fits in a `usize`.
pub open spec fn parsed_usize(s: Seq<char>) -> Option<usize> {
    let d = if s.len() > 0 && s[0] == '+' {
        s.drop_first()
    } else {
        s
    };
    if d.len() > 0 && all_digits(d) && digits_value(d) <= usize::MAX {
        Some(digits_value(d) as usize)
    } else {
        None
    }
}

proof fn lemma_digits_nonneg(d: Seq<char>)
    requires
        all_digits(d),
    ensures
        digits_value(d) >= 0,
    decreases d.len(),
{
    if d.len() > 0 {
        assert(is_digit(d[d.len() - 1]));
        assert(all_digits(d.drop_last())) by {
            assert forall|i: int| 0 <= i < d.drop_last().len() implies is_digit(
                #[trigger] d.drop_last()[i],
            ) by {
                assert(d.drop_last()[i] == d[i]);
            }
        }
        lemma_digits_nonneg(d.drop_last());
    }
}

/// A number's leading digits are worth no more than the whole number.
proof fn lemma_digits_prefix_le(d: Seq<char>, k: int)
    requires
        all_digits(d),
        0 <= k <= d.len(),
    ensures
        digits_value(d.take(k)) <= digits_value(d),
    decreases d.len(),
{
    if k < d.len() {
        let p = d.drop_last();
        assert(all_digits(p)) by {
            assert forall|i: int| 0 <= i < p.len() implies is_digit(#[trigger] p[i]) by {
                assert(p[i] == d[i]);
            }
        }
        assert(is_digit(d[d.len() - 1]));
        lemma_digits_nonneg(p);
        lemma_digits_prefix_le(p, k);
        assert(p.take(k) =~= d.take(k));
    } else {
        assert(d.take(k) =~= d);
    }
}

/// The number `s` spells, as `str::parse::<usize>` reads it.
pub fn parse_usize(s: &str) -> (r: Option<usize>)
    ensures
        r == parsed_usize(s@),
{
    let cs = chars_of(s);
    let start: usize = if cs.len() > 0 && cs[0] == '+' {
        1
    } else {
        0
    };
    let ghost d = if s@.len() > 0 && s@[0] == '+' {
        s@.drop_first()
    } else {
        s@
    };
    proof {
        assert(d =~= s@.skip(start as int));
    }
    let ghost parsed = if d.len() > 0 && all_digits(d) && digits_value(d) <= usize::MAX {
        Some(digits_value(d) as usize)
    } else {
        None
    };
    assert(parsed_usize(s@) == parsed);
    if start >= cs.len() {
        return None;
    }
    let mut v: usize = 0;
    let mut i: usize = start;
    proof {
        assert(d.take(0) =~= Seq::<char>::empty());
    }
    while i < cs.len()
        invariant
            cs@ == s@,
            d == s@.skip(start as int),
            parsed_usize(s@) == parsed,
            parsed == (if d.len() > 0 && all_digits(d) && digits_value(d) <= usize::MAX {
                Some(digits_value(d) as usize)
            } else {
                None
            }),
            start < cs.len(),
            start <= i <= cs.len(),
            all_digits(d.take(i - start)),
            v == digits_value(d.take(i - start)),
        decreases cs.len() - i,
    {
        let c = cs[i];
        let k = i - start;
        proof {
            assert(d[k as int] == c);
        }
        if c < '0' || c > '9' {
            proof {
                assert(!is_digit(d[k as int]));
            }
            return None;
        }
        let digit = ((c as u32) - ('0' as u32)) as usize;
        let ghost next = d.take(k + 1);
        proof {
            assert(next.drop_last() =~= d.take(k as int));
            assert(next.last() == c);
            assert(digits_value(next) == v * 10 + digit);
            assert(all_digits(next)) by {
                assert forall|j: int| 0 <= j < next.len() implies is_digit(#[trigger] next[j]) by {
                    if j < k {
                        assert(next[j] == d.take(k as int)[j]);
                    }
                }
            }
        }
        let grown = match v.checked_mul(10) {
            Some(m) => m.checked_add(digit),
            None => None,
        };
        match grown {
            Some(n) => {
                v = n;
            },
            None => {
                proof {
                    if all_digits(d) {
                        lemma_digits_prefix_le(d, k + 1);
                    }
                }
                return None;
            },
        }
        i = i + 1;
    }
    proof {
        assert(d.take(i - start) =~= d);
    }
    Some(v)
}

// ── Header lines ──────────────────────────────────────────────────────────────

/// What a header line of a message says.
#[derive(Debug, Clone, Copy, PartialEq, Eq, Structural)]
pub enum HeaderLine {
    /// The blank line that ends the header.
    Blank,
    /// A `Content-Length:` line, with the length if it is a number.
    Length(Option<usize>),
    /// Any other header line.
    Other,
}

/// What a header line says: blank once trimmed; a length where the trimmed
/// line starts with `Content-Length:`, read from the (trimmed) rest; or
/// nothing of interest.
pub open spec fn header_kind(line: Seq<char>) -> HeaderLine {
    let t = trim_ws(line);
    let key = "Content-Length:"@;
    if t.len() == 0 {
        HeaderLine::Blank
    } else if key.len() <= t.len() && t.take(key.len() as int) == key {
        HeaderLine::Length(parsed_usize(trim_ws(t.skip(key.len() as int))))
    } else {
        HeaderLine::Other
    }
}

/// Reads one header line of a message.
pub fn header_line(line: &str) -> (r: HeaderLine)
    ensures
        r == header_kind(line@),
{
    let t = trim(line);
    let n = crate::text::char_count(t.as_str());
    if n == 0 {
        return HeaderLine::Blank;
    }
    let key = "Content-Length:";
    if starts_with(t.as_str(), key) {
        let k = crate::text::char_count(key);
        let rest = substring(t.as_str(), k, n);
        proof {
            assert(rest@ =~= t@.skip(key@.len() as int));
        }
        let value = trim(rest.as_str());
        HeaderLine::Length(parse_usize(value.as_str()))
    } else {
        HeaderLine::Other
    }
}

// ── Incoming messages ─────────────────────────────────────────────────────────

/// What an incoming message means to the client.
#[derive(Debug, Clone, Copy, PartialEq, Eq, Structural)]
pub enum Reply {
    /// The server answered the initialize request.
    Initialized,
    /// The server answered the pending completion request.
    Completions,
    /// Nothing the client waits for.
    Ignored,
}

/// Classifies a message that has an `id` field (`has_id`), whose value as
/// an integer is `id`, and a `result` field (`has_result`): before the
/// server is initialized, any answer completes the initialization; after
/// it, the answer to the pending completion request carries completions.
pub open spec fn reply_kind(
    initialized: bool,
    has_id: bool,
    id: Option<i64>,
    has_result: bool,
    pending: Option<i64>,
) -> Reply {
    if !initialized {
        if has_id && has_result {
            Reply::Initialized
        } else {
            Reply::Ignored
        }
    } else if has_result && pending is Some && id == pending {
        Reply::Completions
    } else {
        Reply::Ignored
    }
}

pub fn classify_reply(
    initialized: bool,
    has_id: bool,
    id: Option<i64>,
    has_result: bool,
    pending: Option<i64>,
) -> (r: Reply)
    ensures
        r == reply_kind(initialized, has_id, id, has_result, pending),
        r == Reply::Initialized <==> !initialized && has_id && has_result,
        r == Reply::Completions <==> initialized && has_result && pending is Some && id == pending,
{
    if !initialized {
        if has_id && has_result {
            Reply::Initialized
        } else {
            Reply::Ignored
        }
    } else {
        match pending {
            Some(p) => {
                if has_result && id == Some(p) {
                    Reply::Completions
                } else {
                    Reply::Ignored
                }
            },
            None => Reply::Ignored,
        }
    }
}

// ── Message bodies ────────────────────────────────────────────────────────────

/// A message from the server, as far as the client reads it.
pub struct ServerReply {
    /// It has an `id` field.
    pub has_id: bool,
    /// The `id` field's value, where it is an integer that fits in an `i64`.
    pub id: Option<i64>,
    /// It has a `result` field.
    pub has_result: bool,
    /// The entries of `result`, where it is a list.
    pub result_list: Option<Vec<CompletionCandidate>>,
    /// The entries of `result`'s `items` field, where that is a list.
    pub result_items: Option<Vec<CompletionCandidate>>,
}

pub open spec fn opt_candidates(o: Option<Vec<CompletionCandidate>>) -> Option<
    Seq<(Option<Seq<char>>, Option<Seq<char>>)>,
> {
    match o {
        Some(v) => Some(candidate_views(v@)),
        None => None,
    }
}

pub open spec fn reply_view(r: ServerReply) -> (
    bool,
    Option<i64>,
    bool,
    Option<Seq<(Option<Seq<char>>, Option<Seq<char>>)>>,
    Option<Seq<(Option<Seq<char>>, Option<Seq<char>>)>>,
) {
    (r.has_id, r.id, r.has_result, opt_candidates(r.result_list), opt_candidates(r.result_items))
}

/// What `serde_json` reads from a message body: whether it has an `id`
/// field and that field as an `i64`, whether it has a `result` field, and
/// the entries of `result` and of `result.items` where they are lists, each
/// entry's `label` and `insertText` where they are strings; none where the
/// body is not JSON.
pub uninterp spec fn json_reply(body: Seq<u8>) -> Option<
    (
        bool,
        Option<i64>,
        bool,
        Option<Seq<(Option<Seq<char>>, Option<Seq<char>>)>>,
        Option<Seq<(Option<Seq<char>>, Option<Seq<char>>)>>,
    ),
>;

/// Trusted: `serde_json::from_slice` into a JSON value, with the fields the
/// client reads picked out; the result depends on the bytes alone and is
/// named `json_reply(body)`.
#[verifier::external_body]
fn parse_reply(body: &[u8]) -> (r: Option<ServerReply>)
    ensures
        match r {
            Some(x) => json_reply(body@) == Some(reply_view(x)),
            None => json_reply(body@) is None,
        },
{
    let v: Value = from_slice(body).ok()?;
    let (id, res) = (v.get("id"), v.get("result"));
    let text = |e: &Value, k: &str| e.get(k).and_then(Value::as_str).map(String::from);
    let list = |x: Option<&Value>| x.and_then(Value::as_array).map(|a| a.iter().map(
        |e| CompletionCandidate { label: text(e, "label"), insert_text: text(e, "insertText") },
    ).collect());
    Some(ServerReply {
        has_id: id.is_some(),
        id: id.and_then(Value::as_i64),
        has_result: res.is_some(),
        result_list: list(res),
        result_items: list(res.and_then(|r| r.get("items"))),
    })
}

/// The entries of a completion answer: its result where that is a list,
/// else the result's `items` where that is a list, else none.
pub open spec fn answer_entries(
    v: (
        bool,
        Option<i64>,
        bool,
        Option<Seq<(Option<Seq<char>>, Option<Seq<char>>)>>,
        Option<Seq<(Option<Seq<char>>, Option<Seq<char>>)>>,
    ),
) -> Seq<(Option<Seq<char>>, Option<Seq<char>>)> {
    match v.3 {
        Some(l) => l,
        None => match v.4 {
            Some(l) => l,
            None => seq![],
        },
    }
}

/// Reads a message body from the server, for a client that is `initialized`
/// or not and waits for the completion request `pending`: what it means,
/// and for completions, the items (the labelled ones among the answer's
/// first twenty entries).  A body that is not JSON means nothing.
pub fn read_message(body: &[u8], initialized: bool, pending: Option<i64>) -> (r: (
    Reply,
    Vec<CompletionItem>,
))
    ensures
        match json_reply(body@) {
            None => r.0 == Reply::Ignored && r.1@.len() == 0,
            Some(v) => r.0 == reply_kind(initialized, v.0, v.1, v.2, pending) && item_views(r.1@) == (
            if r.0 == Reply::Completions {
                answer_items(answer_entries(v))
            } else {
                Seq::<(Seq<char>, Seq<char>)>::empty()
            }),
        },
{
    match parse_reply(body) {
        None => {
            let none: Vec<CompletionItem> = Vec::new();
            (Reply::Ignored, none)
        },
        Some(reply) => {
            let kind = classify_reply(initialized, reply.has_id, reply.id, reply.has_result, pending);
            if kind == Reply::Completions {
                let entries = match reply.result_list {
                    Some(l) => l,
                    None => match reply.result_items {
                        Some(l) => l,
                        None => Vec::new(),
                    },
                };
                proof {
                    assert(candidate_views(entries@) == answer_entries(reply_view(reply)));
                }
                (kind, completion_items(&entries))
            } else {
                let none: Vec<CompletionItem> = Vec::new();
                proof {
                    assert(item_views(none@) =~= Seq::<(Seq<char>, Seq<char>)>::empty());
                }
                (kind, none)
            }
        },
    }
}

// ── The client's side of a session ────────────────────────────────────────────

/// What the client keeps of a session with a language server: whether the
/// server has answered the initialize request, the id of the next request,
/// and the documents it has been told are open.
pub struct LspSession {
    pub initialized: bool,
    pub next_id: i64,
    pub opened: Vec<String>,
}

impl LspSession {
    /// A session that the server has not answered yet; the first request
    /// gets id 1.
    pub fn new() -> (s: LspSession)
        ensures
            !s.initialized,
            s.next_id == 1,
            s.opened@.len() == 0,
    {
        LspSession { initialized: false, next_id: 1, opened: Vec::new() }
    }

    /// The id for the next request; the counter moves on.
    pub fn take_id(&mut self) -> (id: i64)
        requires
            old(self).next_id < i64::MAX,
        ensures
            id == old(self).next_id,
            final(self).next_id == old(self).next_id + 1,
            final(self).initialized == old(self).initialized,
            final(self).opened@ == old(self).opened@,
    {
        let id = self.next_id;
        self.next_id = self.next_id + 1;
        id
    }

    /// A message came in: an answer to the initialize request initializes
    /// the session.
    pub fn receive(&mut self, reply: Reply)
        ensures
            final(self).initialized == (old(self).initialized || reply == Reply::Initialized),
            final(self).next_id == old(self).next_id,
            final(self).opened@ == old(self).opened@,
    {
        if reply == Reply::Initialized {
            self.initialized = true;
        }
    }

    /// Whether the server has to be told that `uri` is open: only once the
    /// session is initialized, and only the first time; it is then recorded.
    pub fn should_open(&mut self, uri: &str) -> (r: bool)
        ensures
            r == (old(self).initialized && !string_views(old(self).opened@).contains(uri@)),
            string_views(final(self).opened@) == if r {
                string_views(old(self).opened@).push(uri@)
            } else {
                string_views(old(self).opened@)
            },
            final(self).initialized == old(self).initialized,
            final(self).next_id == old(self).next_id,
    {
        if !self.initialized {
            return false;
        }
        let mut i: usize = 0;
        while i < self.opened.len()
            invariant
                i <= self.opened.len(),
                self.opened@ == old(self).opened@,
                self.initialized,
                forall|j: int| 0 <= j < i ==> string_views(self.opened@)[j] != uri@,
            decreases self.opened.len() - i,
        {
            if crate::lsp::same_str(self.opened[i].as_str(), uri) {
                proof {
                    assert(string_views(self.opened@)[i as int] == uri@);
                }
                return false;
            }
            i = i + 1;
        }
        let ghost before = string_views(self.opened@);
        self.opened.push(uri.to_owned());
        proof {
            assert(string_views(self.opened@) =~= before.push(uri@));
            assert(!before.contains(uri@)) by {
                if before.contains(uri@) {
                    let j = choose|j: int| 0 <= j < before.len() && before[j] == uri@;
                    assert(string_views(old(self).opened@)[j] != uri@);
                }
            }
        }
        true
    }
}

} // verus!
