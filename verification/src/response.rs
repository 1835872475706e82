//! HTTP responses and the text of their head.
use vstd::prelude::*;
use vstd::string::StringExecFns;
use crate::headers::{Headers, HeaderSeq, value_of};

verus! {

/// The name under which a response keeps its status line.
pub open spec fn status_line_name() -> Seq<char> {
    "StatusLine"@
}

/// The text of one header field: name, `": "`, value and a line break.
pub open spec fn field_text(name: Seq<char>, value: Seq<char>) -> Seq<char> {
    name + ": "@ + value + "\r\n"@
}

/// The field lines of `e` in order, leaving out the status line.
pub open spec fn field_lines(e: HeaderSeq) -> Seq<char>
    decreases e.len(),
{
    if e.len() == 0 {
        Seq::empty()
    } else if e.last().0 == status_line_name() {
        field_lines(e.drop_last())
    } else {
        field_lines(e.drop_last()) + field_text(e.last().0, e.last().1)
    }
}

/// The head of a response with fields `e`: the status line, the other fields in
/// order, and an empty line.
pub open spec fn head_text(e: HeaderSeq) -> Seq<char> {
    value_of(e, status_line_name())->0 + "\r\n"@ + field_lines(e) + "\r\n"@
}

/// The field lines of one field: none for the status line, else
/// `name: value` and a line break.
pub proof fn lemma_field_lines_single(name: Seq<char>, value: Seq<char>)
    ensures
        field_lines(seq![(name, value)]) == if name == "StatusLine"@ {
            Seq::<char>::empty()
        } else {
            name + ": "@ + value + "\r\n"@
        },
{
    let e = seq![(name, value)];
    assert(e.drop_last() =~= Seq::<(Seq<char>, Seq<char>)>::empty());
    assert(field_lines(Seq::<(Seq<char>, Seq<char>)>::empty()) == Seq::<char>::empty());
    if name != "StatusLine"@ {
        assert(field_lines(e) =~= name + ": "@ + value + "\r\n"@);
    }
}

/// The field lines of two runs of fields are those of the first run followed
/// by those of the second, however many fields there are.
pub proof fn lemma_field_lines_concat(a: HeaderSeq, b: HeaderSeq)
    ensures
        field_lines(a + b) == field_lines(a) + field_lines(b),
    decreases b.len(),
{
    if b.len() == 0 {
        assert(a + b =~= a);
        assert(field_lines(a) + field_lines(b) =~= field_lines(a));
    } else {
        lemma_field_lines_concat(a, b.drop_last());
        assert((a + b).drop_last() =~= a + b.drop_last());
        assert((a + b).last() == b.last());
        assert(field_lines(a + b) =~= field_lines(a) + field_lines(b));
    }
}

/// An HTTP response: header fields and a body.
pub struct Response {
    pub headers: Headers,
    pub body: String,
}

impl Response {
    /// A response with no header fields and an empty body.
    pub fn new() -> (r: Self)
        ensures
            r.headers@ == Seq::<(Seq<char>, Seq<char>)>::empty(),
            r.body@ == Seq::<char>::empty(),
    {
        Response { headers: Headers::new(), body: String::new() }
    }

    /// A response with the given header fields and an empty body.
    pub fn new_no_body(headers: Headers) -> (r: Self)
        ensures
            r.headers@ == headers@,
            r.body@ == Seq::<char>::empty(),
    {
        Response { headers, body: String::new() }
    }

    /// The head of the response as sent on the wire: the status line, each other
    /// field as `name: value`, every line ended by CRLF, then an empty line.
    pub fn headers_to_string(&self) -> (s: String)
        requires
            value_of(self.headers@, status_line_name()) is Some,
        ensures
            s@ == head_text(self.headers@),
    {
        let mut h_str = String::new();
        let status_line = self.headers.get_str("StatusLine").unwrap();
        h_str.append(status_line.as_str());
        h_str.append("\r\n");
        let status_name = "StatusLine".to_string();
        let n = self.headers.len();
        let ghost e = self.headers@;
        let ghost first = value_of(e, status_line_name())->0 + "\r\n"@;
        assert(e.take(0) =~= Seq::<(Seq<char>, Seq<char>)>::empty());
        let mut i: usize = 0;
        while i < n
            invariant
                i <= n == e.len(),
                e == self.headers@,
                status_name@ == status_line_name(),
                h_str@ == first + field_lines(e.take(i as int)),
            decreases n - i,
        {
            let (key, value) = self.headers.entry(i);
            assert(e.take(i + 1).drop_last() =~= e.take(i as int));
            assert(e.take(i + 1).last() == e[i as int]);
            if *key == status_name {
                i = i + 1;
                continue;
            }
            h_str.append(key.as_str());
            h_str.append(": ");
            h_str.append(value.as_str());
            h_str.append("\r\n");
            assert(h_str@ =~= first + field_lines(e.take(i + 1)));
            i = i + 1;
        }
        assert(e.take(n as int) =~= e);
        h_str.append("\r\n");
        assert(h_str@ =~= head_text(e));
        h_str
    }
}

} // verus!
