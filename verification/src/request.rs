//! The opening HTTP request of a WebSocket connection: its head, read line by
//! line, and its body.
use vstd::prelude::*;
use vstd::utf8::{valid_utf8, decode_utf8};
use crate::errors::WebSocketError;
use crate::headers::{Headers, HeaderSeq, inserted};
use crate::text::{
    chars_of,
    string_from_chars,
    trim,
    trimmed,
    to_ascii_lowercase,
    lowered,
    eq_ignore_ascii_case,
    contains,
    has_substring,
    parse_usize,
    parsed_usize,
    utf8_to_string,
};

verus! {

/// What the head of a request gives: its header fields, whether a field name
/// mentions `websocket`, and the declared body length.
pub type HeadState = (HeaderSeq, bool, usize);

/// The name under which a request keeps its request line.
pub open spec fn request_line_name() -> Seq<char> {
    "RequestLine"@
}

/// `i` is the position of the first `:` in `s`.
pub open spec fn first_colon_at(s: Seq<char>, i: int) -> bool {
    &&& 0 <= i < s.len()
    &&& s[i] == ':'
    &&& forall|j: int| 0 <= j < i ==> s[j] != ':'
}

/// `s` split at its first `:` into the text before and the text after it; with
/// no `:`, the whole of `s` and nothing.
pub open spec fn split_at_colon(s: Seq<char>) -> (Seq<char>, Seq<char>) {
    if exists|i: int| first_colon_at(s, i) {
        let i = choose|i: int| first_colon_at(s, i);
        (s.take(i), s.skip(i + 1))
    } else {
        (s, Seq::empty())
    }
}

/// The name and value of a header line: both parts of [`split_at_colon`], trimmed.
pub open spec fn field_of_line(s: Seq<char>) -> (Seq<char>, Seq<char>) {
    (trimmed(split_at_colon(s).0), trimmed(split_at_colon(s).1))
}

/// The state after one non-empty header line.
pub open spec fn line_step(st: HeadState, s: Seq<char>) -> HeadState {
    let k = field_of_line(s).0;
    let v = field_of_line(s).1;
    let cl = if lowered(k) == lowered("Content-Length"@) {
        match parsed_usize(v) {
            Some(x) => x,
            None => 0usize,
        }
    } else {
        st.2
    };
    (inserted(st.0, k, v), st.1 || has_substring(lowered(k), "websocket"@), cl)
}

/// The state after the header lines `rest`, up to the first empty one.
pub open spec fn fold_lines(st: HeadState, rest: Seq<Seq<char>>) -> HeadState
    decreases rest.len(),
{
    if rest.len() == 0 || rest[0].len() == 0 {
        st
    } else {
        fold_lines(line_step(st, rest[0]), rest.drop_first())
    }
}

/// What the head made of `lines` gives: the first line is kept as the request
/// line, each following line up to the first empty one is a header field.
pub open spec fn parsed_head(lines: Seq<Seq<char>>) -> HeadState {
    if lines.len() == 0 {
        (Seq::empty(), false, 0usize)
    } else {
        fold_lines(
            (inserted(Seq::empty(), request_line_name(), lines[0]), false, 0usize),
            lines.drop_first(),
        )
    }
}

/// The head is complete: some line after the first is empty.
pub open spec fn head_complete(lines: Seq<Seq<char>>) -> bool {
    exists|i: int| 1 <= i < lines.len() && #[trigger] lines[i].len() == 0
}

/// The views of a sequence of strings.
pub open spec fn line_views(lines: Seq<String>) -> Seq<Seq<char>> {
    lines.map_values(|l: String| l@)
}

/// Whether the header line `s` has a name (the trimmed text before its first
/// `:`) that contains `websocket` in any ASCII case.
pub open spec fn names_websocket(s: Seq<char>) -> bool {
    has_substring(lowered(trimmed(split_at_colon(s).0)), "websocket"@)
}

/// Some line of `rest`, with no empty line before or at it, names `websocket`.
pub open spec fn some_field_names_websocket(rest: Seq<Seq<char>>) -> bool {
    exists|i: int|
        0 <= i < rest.len() && (forall|j: int| 0 <= j <= i ==> #[trigger] rest[j].len() > 0)
            && #[trigger] names_websocket(rest[i])
}

proof fn lemma_fold_flag(st: HeadState, rest: Seq<Seq<char>>)
    ensures
        fold_lines(st, rest).1 == (st.1 || some_field_names_websocket(rest)),
    decreases rest.len(),
{
    if rest.len() == 0 {
    } else if rest[0].len() == 0 {
        if some_field_names_websocket(rest) {
            let i = choose|i: int|
                0 <= i < rest.len() && (forall|j: int| 0 <= j <= i ==> #[trigger] rest[j].len() > 0)
                    && #[trigger] names_websocket(rest[i]);
            assert(rest[0].len() > 0);
        }
    } else {
        let next = line_step(st, rest[0]);
        let tail = rest.drop_first();
        lemma_fold_flag(next, tail);
        assert(next.1 == (st.1 || names_websocket(rest[0])));
        if some_field_names_websocket(tail) {
            let i = choose|i: int|
                0 <= i < tail.len() && (forall|j: int| 0 <= j <= i ==> #[trigger] tail[j].len() > 0)
                    && #[trigger] names_websocket(tail[i]);
            assert(rest[i + 1] == tail[i]);
            assert forall|j: int| 0 <= j <= i + 1 implies #[trigger] rest[j].len() > 0 by {
                if j > 0 {
                    assert(rest[j] == tail[j - 1]);
                }
            }
            assert(names_websocket(rest[i + 1]));
        }
        if some_field_names_websocket(rest) {
            let i = choose|i: int|
                0 <= i < rest.len() && (forall|j: int| 0 <= j <= i ==> #[trigger] rest[j].len() > 0)
                    && #[trigger] names_websocket(rest[i]);
            if i > 0 {
                assert(tail[i - 1] == rest[i]);
                assert forall|j: int| 0 <= j <= i - 1 implies #[trigger] tail[j].len() > 0 by {
                    assert(tail[j] == rest[j + 1]);
                }
                assert(names_websocket(tail[i - 1]));
            }
        }
    }
}

/// A parsed head asks for a WebSocket exactly where some header line after
/// the request line and before the first empty line has a name that contains
/// `websocket` in any case; a later field never clears it.
pub proof fn lemma_websocket_flag(lines: Seq<Seq<char>>)
    ensures
        parsed_head(lines).1 == (lines.len() > 0 && some_field_names_websocket(lines.drop_first())),
{
    if lines.len() > 0 {
        lemma_fold_flag(
            (inserted(Seq::empty(), request_line_name(), lines[0]), false, 0usize),
            lines.drop_first(),
        );
    }
}

/// Lines that follow an empty line do not change the state.
proof fn lemma_fold_ignores_rest(st: HeadState, rest: Seq<Seq<char>>, more: Seq<Seq<char>>, j: int)
    requires
        0 <= j < rest.len(),
        rest[j].len() == 0,
    ensures
        fold_lines(st, rest + more) == fold_lines(st, rest),
    decreases rest.len(),
{
    let all = rest + more;
    assert(all[0] == rest[0]);
    if rest[0].len() != 0 {
        assert(all.drop_first() =~= rest.drop_first() + more);
        lemma_fold_ignores_rest(line_step(st, rest[0]), rest.drop_first(), more, j - 1);
    }
}

/// Once the head is complete, lines read after it do not change what it gives.
pub proof fn lemma_head_ignores_rest(lines: Seq<Seq<char>>, more: Seq<Seq<char>>)
    requires
        head_complete(lines),
    ensures
        parsed_head(lines + more) == parsed_head(lines),
{
    let i = choose|i: int| 1 <= i < lines.len() && #[trigger] lines[i].len() == 0;
    let all = lines + more;
    assert(all[0] == lines[0]);
    assert(all.drop_first() =~= lines.drop_first() + more);
    assert(lines.drop_first()[i - 1] == lines[i]);
    lemma_fold_ignores_rest(
        (inserted(Seq::empty(), request_line_name(), lines[0]), false, 0usize),
        lines.drop_first(),
        more,
        i - 1,
    );
}

/// The body of a request whose declared length is `content_length`.
pub open spec fn body_text(content_length: usize, body: Seq<u8>) -> Seq<char> {
    if content_length == 0 {
        Seq::empty()
    } else {
        decode_utf8(body)
    }
}

/// The characters `cs[start..end]` as a vector.
fn sub_chars(cs: &Vec<char>, start: usize, end: usize) -> (r: Vec<char>)
    requires
        start <= end <= cs@.len(),
    ensures
        r@ == cs@.subrange(start as int, end as int),
{
    let mut r: Vec<char> = Vec::new();
    let mut k = start;
    while k < end
        invariant
            start <= k <= end <= cs@.len(),
            r@ == cs@.subrange(start as int, k as int),
        decreases end - k,
    {
        r.push(cs[k]);
        k = k + 1;
    }
    r
}

/// The position of the first `:` in `cs`, if any.
fn find_colon(cs: &Vec<char>) -> (r: Option<usize>)
    ensures
        r matches Some(i) ==> first_colon_at(cs@, i as int),
        r is None ==> !(exists|i: int| first_colon_at(cs@, i)),
{
    let n = cs.len();
    let mut i: usize = 0;
    while i < n
        invariant
            i <= n == cs@.len(),
            forall|j: int| 0 <= j < i ==> cs@[j] != ':',
        decreases n - i,
    {
        if cs[i] == ':' {
            return Some(i);
        }
        i = i + 1;
    }
    None
}

proof fn lemma_first_colon_unique(s: Seq<char>, i: int)
    requires
        first_colon_at(s, i),
    ensures
        split_at_colon(s) == (s.take(i), s.skip(i + 1)),
{
    let j = choose|j: int| first_colon_at(s, j);
    assert(first_colon_at(s, j));
    if j < i {
        assert(s[j] != ':');
    }
    if i < j {
        assert(s[i] != ':');
    }
}

/// An HTTP request: header fields, whether it asks for a WebSocket, and a body.
pub struct Request {
    pub is_valid: bool,
    pub headers: Headers,
    pub body: String,
}

impl Request {
    /// The name and value of one header line, both trimmed.
    fn split_field(cs: &Vec<char>) -> (r: (Vec<char>, Vec<char>))
        ensures
            r.0@ == field_of_line(cs@).0,
            r.1@ == field_of_line(cs@).1,
    {
        match find_colon(cs) {
            Some(p) => {
                let n = cs.len();
                assert(p < n);
                proof {
                    lemma_first_colon_unique(cs@, p as int);
                }
                let key = sub_chars(cs, 0, p);
                let value = sub_chars(cs, p + 1, n);
                assert(key@ == cs@.take(p as int));
                assert(value@ == cs@.skip(p + 1));
                (trim(&key), trim(&value))
            },
            None => {
                let empty: Vec<char> = Vec::new();
                assert(cs@.subrange(0, cs@.len() as int) =~= cs@);
                (trim(cs), trim(&empty))
            },
        }
    }

    /// Reads the head of a request from its lines: the first line is stored
    /// under `RequestLine`, each following line up to the first empty one is a
    /// `name: value` field. Returns the fields, whether some field name contains
    /// `websocket` in any case, and the value of the last `Content-Length` field
    /// (0 where it is absent or not a number).
    pub fn parse_headers(lines: &Vec<String>) -> (r: (Headers, bool, usize))
        ensures
            (r.0@, r.1, r.2) == parsed_head(line_views(lines@)),
    {
        let ghost ls = line_views(lines@);
        let mut headers = Headers::new();
        let mut is_valid = false;
        let mut content_length: usize = 0;
        let n = lines.len();
        if n == 0 {
            return (headers, is_valid, content_length);
        }
        headers.insert("RequestLine".to_string(), lines[0].clone());
        let content_length_name = chars_of("Content-Length");
        let websocket_name = chars_of("websocket");
        assert(ls.drop_first() =~= ls.skip(1));
        let mut i: usize = 1;
        while i < n
            invariant
                1 <= i <= n == lines@.len(),
                ls == line_views(lines@),
                content_length_name@ == "Content-Length"@,
                websocket_name@ == "websocket"@,
                parsed_head(ls) == fold_lines((headers@, is_valid, content_length), ls.skip(i as int)),
            ensures
                parsed_head(ls) == (headers@, is_valid, content_length),
            decreases n - i,
        {
            let cs = chars_of(lines[i].as_str());
            assert(ls.skip(i as int)[0] == cs@);
            if cs.len() == 0 {
                assert(ls.skip(i as int)[0].len() == 0);
                break;
            }
            let ghost st = (headers@, is_valid, content_length);
            let (key, value) = Self::split_field(&cs);
            if eq_ignore_ascii_case(&key, &content_length_name) {
                content_length = match parse_usize(&value) {
                    Some(x) => x,
                    None => 0,
                };
            }
            if contains(&to_ascii_lowercase(&key), &websocket_name) {
                is_valid = true;
            }
            let key_len = key.len();
            let value_len = value.len();
            let key_string = string_from_chars(&key, 0, key_len);
            let value_string = string_from_chars(&value, 0, value_len);
            assert(key@.subrange(0, key_len as int) =~= key@);
            assert(value@.subrange(0, value_len as int) =~= value@);
            headers.insert(key_string, value_string);
            assert((headers@, is_valid, content_length) == line_step(st, cs@));
            assert(ls.skip(i as int).drop_first() =~= ls.skip(i + 1));
            i = i + 1;
        }
        (headers, is_valid, content_length)
    }

    /// Whether the lines read so far hold the whole head: some line after the
    /// request line is empty.
    pub fn is_head_complete(lines: &Vec<String>) -> (r: bool)
        ensures
            r == head_complete(line_views(lines@)),
    {
        let n = lines.len();
        let mut i: usize = 1;
        while i < n
            invariant
                1 <= i,
                n == lines@.len(),
                forall|k: int| 1 <= k < i && k < n ==> lines@[k]@.len() != 0,
            decreases n - i,
        {
            if lines[i].as_str().is_empty() {
                assert(line_views(lines@)[i as int].len() == 0);
                return true;
            }
            i = i + 1;
        }
        assert forall|k: int|
            1 <= k < line_views(lines@).len() implies #[trigger] line_views(lines@)[k].len()
            != 0 by {
            assert(lines@[k]@.len() != 0);
        }
        false
    }

    /// The body of a request with declared length `content_length`, from the
    /// `content_length` bytes read for it: empty when the length is 0, else
    /// their UTF-8 text.
    pub fn parse_body(content_length: usize, body: Vec<u8>) -> (s: String)
        requires
            body@.len() == content_length,
            content_length > 0 ==> valid_utf8(body@),
        ensures
            s@ == body_text(content_length, body@),
    {
        if content_length == 0 {
            return String::new();
        }
        utf8_to_string(body).unwrap()
    }

    /// The request made of the head `lines` and the `body` read after it, as
    /// many bytes as the head declares.
    pub fn new_from_stream(lines: &Vec<String>, body: Vec<u8>) -> (r: Result<Self, WebSocketError>)
        requires
            body@.len() == parsed_head(line_views(lines@)).2,
            parsed_head(line_views(lines@)).2 > 0 ==> valid_utf8(body@),
        ensures
            r matches Ok(req) && req.headers@ == parsed_head(line_views(lines@)).0
                && req.is_valid == parsed_head(line_views(lines@)).1 && req.body@ == body_text(
                parsed_head(line_views(lines@)).2,
                body@,
            ),
    {
        let (headers, is_valid, content_length) = Self::parse_headers(lines);
        let body = Self::parse_body(content_length, body);
        Ok(Request { is_valid, headers, body })
    }

    /// A request with no fields, not valid, with an empty body.
    pub fn new_empty() -> (r: Self)
        ensures
            r.headers@ == Seq::<(Seq<char>, Seq<char>)>::empty(),
            !r.is_valid,
            r.body@ == Seq::<char>::empty(),
    {
        Request { headers: Headers::new(), is_valid: false, body: String::new() }
    }
}

} // verus!
