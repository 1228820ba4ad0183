//! Export of a resolved request as a multiline `curl` command.

use vstd::prelude::*;

use super::model::{HttpMethod, Request, RequestBody, RequestModel};
use crate::text::{join_strings, join_with, push_char, starts_with, string_views, to_chars};
use vstd::string::StringExecFns;

verus! {

/// The name of an HTTP method.
pub open spec fn method_str(m: HttpMethod) -> Seq<char> {
    match m {
        HttpMethod::Get => "GET"@,
        HttpMethod::Post => "POST"@,
        HttpMethod::Put => "PUT"@,
        HttpMethod::Patch => "PATCH"@,
        HttpMethod::Delete => "DELETE"@,
        HttpMethod::Head => "HEAD"@,
        HttpMethod::Options => "OPTIONS"@,
    }
}

/// `s` with every `'` replaced by `'\''`.
pub open spec fn escape_quotes(s: Seq<char>) -> Seq<char>
    decreases s.len(),
{
    if s.len() == 0 {
        seq![]
    } else {
        (if s[0] == '\'' {
            seq!['\'', '\\', '\'', '\'']
        } else {
            seq![s[0]]
        }) + escape_quotes(s.drop_first())
    }
}

/// `s` as one single-quoted shell word.
pub open spec fn shell_quoted(s: Seq<char>) -> Seq<char> {
    seq!['\''] + escape_quotes(s) + seq!['\'']
}

/// The lines of the command: `curl`, `-X METHOD` unless the method is GET,
/// the quoted URL; one `-H` line per header; a `--data-raw` line for a body.
pub open spec fn curl_lines(r: RequestModel) -> Seq<Seq<char>> {
    let first = "curl"@ + (if r.method != HttpMethod::Get {
        " -X "@ + method_str(r.method)
    } else {
        seq![]
    }) + seq![' '] + shell_quoted(r.url);
    let headers = r.headers.map_values(
        |h: (Seq<char>, Seq<char>)| "  -H "@ + shell_quoted(h.0 + ": "@ + h.1),
    );
    let body = match r.body {
        Some(b) => seq!["  --data-raw "@ + shell_quoted(b)],
        None => seq![],
    };
    seq![first] + headers + body
}

/// The command: its lines joined by a backslash line continuation.
pub open spec fn spec_to_curl(r: RequestModel) -> Seq<char> {
    join_with(curl_lines(r), " \\\n"@)
}

fn method_as_str(method: &HttpMethod) -> (s: &'static str)
    ensures
        s@ == method_str(*method),
{
    match method {
        HttpMethod::Get => "GET",
        HttpMethod::Post => "POST",
        HttpMethod::Put => "PUT",
        HttpMethod::Patch => "PATCH",
        HttpMethod::Delete => "DELETE",
        HttpMethod::Head => "HEAD",
        HttpMethod::Options => "OPTIONS",
    }
}

/// Appends the single-quoted form of `value` to `out`.
fn push_shell_quoted(out: &mut String, value: &str)
    ensures
        final(out)@ == old(out)@ + shell_quoted(value@),
{
    let v = to_chars(value);
    push_char(out, '\'');
    let ghost base = out@;
    let mut i: usize = 0;
    assert(v@.skip(0) =~= v@);
    while i < v.len()
        invariant
            i <= v@.len(),
            v@ == value@,
            base == old(out)@.push('\''),
            out@ + escape_quotes(v@.skip(i as int)) == base + escape_quotes(v@),
        decreases v@.len() - i,
    {
        let ghost before = out@;
        assert(v@.skip(i as int).drop_first() =~= v@.skip(i + 1));
        if v[i] == '\'' {
            push_char(out, '\'');
            push_char(out, '\\');
            push_char(out, '\'');
            push_char(out, '\'');
            assert(out@ =~= before + seq!['\'', '\\', '\'', '\'']);
        } else {
            push_char(out, v[i]);
            assert(out@ =~= before + seq![v@[i as int]]);
        }
        assert(escape_quotes(v@.skip(i as int)) == (if v@[i as int] == '\'' {
            seq!['\'', '\\', '\'', '\'']
        } else {
            seq![v@[i as int]]
        }) + escape_quotes(v@.skip(i + 1)));
        i = i + 1;
        assert(before + escape_quotes(v@.skip(i - 1)) =~= out@ + escape_quotes(v@.skip(i as int)));
    }
    assert(v@.skip(i as int) =~= Seq::<char>::empty());
    push_char(out, '\'');
    assert(out@ =~= old(out)@ + shell_quoted(value@));
}

/// Exports `request` as a `curl` command.
pub fn to_curl(request: &Request) -> (cmd: String)
    ensures
        cmd@ == spec_to_curl(request@),
{
    let ghost r = request@;
    let mut lines: Vec<String> = Vec::new();
    let mut first_line = "curl".to_owned();
    if request.method != HttpMethod::Get {
        first_line.append(" -X ");
        first_line.append(method_as_str(&request.method));
    }
    first_line.append(" ");
    proof {
        reveal_strlit(" ");
    }
    push_shell_quoted(&mut first_line, request.url.as_str());
    assert(first_line@ =~= curl_lines(r)[0]);
    lines.push(first_line);
    let mut i: usize = 0;
    while i < request.headers.len()
        invariant
            r == request@,
            i <= request.headers@.len(),
            string_views(lines@) == seq![curl_lines(r)[0]] + r.headers.take(i as int).map_values(
                |h: (Seq<char>, Seq<char>)| "  -H "@ + shell_quoted(h.0 + ": "@ + h.1),
            ),
        decreases request.headers@.len() - i,
    {
        let header = &request.headers[i];
        assert(r.headers[i as int] == header@);
        let mut pair = String::new();
        pair.append(header.name.as_str());
        pair.append(": ");
        pair.append(header.value.as_str());
        let mut line = "  -H ".to_owned();
        push_shell_quoted(&mut line, pair.as_str());
        let ghost old_lines = lines@;
        lines.push(line);
        assert(string_views(lines@) =~= string_views(old_lines).push(line@));
        assert(r.headers.take(i + 1).map_values(
            |h: (Seq<char>, Seq<char>)| "  -H "@ + shell_quoted(h.0 + ": "@ + h.1),
        ) =~= r.headers.take(i as int).map_values(
            |h: (Seq<char>, Seq<char>)| "  -H "@ + shell_quoted(h.0 + ": "@ + h.1),
        ).push(line@));
        i = i + 1;
    }
    assert(r.headers.take(i as int) =~= r.headers);
    if let Some(RequestBody::Raw(body)) = &request.body {
        let mut line = "  --data-raw ".to_owned();
        push_shell_quoted(&mut line, body.as_str());
        let ghost old_lines = lines@;
        lines.push(line);
        assert(string_views(lines@) =~= string_views(old_lines).push(line@));
    }
    assert(string_views(lines@) =~= curl_lines(r));
    join_strings(&lines, " \\\n")
}

/// How a POSIX shell reads a word, outside quotes: `'` opens a quoted
/// part, a backslash takes the next character as it is.
pub open spec fn shell_read(s: Seq<char>) -> Seq<char>
    decreases s.len(), 1int,
{
    if s.len() == 0 {
        seq![]
    } else if s[0] == '\'' {
        shell_read_quoted(s.drop_first())
    } else if s[0] == '\\' && s.len() >= 2 {
        seq![s[1]] + shell_read(s.skip(2))
    } else {
        seq![s[0]] + shell_read(s.drop_first())
    }
}

/// How a POSIX shell reads a word inside single quotes: every character as
/// it is, up to the closing `'`.
pub open spec fn shell_read_quoted(s: Seq<char>) -> Seq<char>
    decreases s.len(), 0int,
{
    if s.len() == 0 {
        seq![]
    } else if s[0] == '\'' {
        shell_read(s.drop_first())
    } else {
        seq![s[0]] + shell_read_quoted(s.drop_first())
    }
}

proof fn lemma_read_escaped(s: Seq<char>, rest: Seq<char>)
    ensures
        shell_read_quoted(escape_quotes(s) + seq!['\''] + rest) == s + shell_read(rest),
    decreases s.len(),
{
    let t = s.drop_first();
    if s.len() == 0 {
        assert(escape_quotes(s) + seq!['\''] + rest =~= seq!['\''] + rest);
        assert((seq!['\''] + rest).drop_first() =~= rest);
        assert(s + shell_read(rest) =~= shell_read(rest));
    } else {
        lemma_read_escaped(t, rest);
        let tail = escape_quotes(t) + seq!['\''] + rest;
        if s[0] == '\'' {
            let w = seq!['\'', '\\', '\'', '\''] + tail;
            assert(escape_quotes(s) + seq!['\''] + rest =~= w);
            assert(w.drop_first() =~= seq!['\\', '\'', '\''] + tail);
            let x = seq!['\\', '\'', '\''] + tail;
            assert(x.skip(2) =~= seq!['\''] + tail);
            assert((seq!['\''] + tail).drop_first() =~= tail);
            assert(shell_read(x) == seq!['\''] + shell_read(x.skip(2)));
            assert(s =~= seq!['\''] + t);
            assert(s + shell_read(rest) =~= seq!['\''] + (t + shell_read(rest)));
        } else {
            let w = seq![s[0]] + tail;
            assert(escape_quotes(s) + seq!['\''] + rest =~= w);
            assert(w.drop_first() =~= tail);
            assert(s + shell_read(rest) =~= seq![s[0]] + (t + shell_read(rest)));
        }
    }
}

/// Every quoted argument of the command reads back, in a POSIX shell, as
/// exactly the text it quotes.
pub proof fn lemma_shell_quoted_reads_back(s: Seq<char>)
    ensures
        shell_read(shell_quoted(s)) == s,
{
    let q = shell_quoted(s);
    assert(q.drop_first() =~= escape_quotes(s) + seq!['\''] + Seq::<char>::empty());
    lemma_read_escaped(s, Seq::<char>::empty());
    assert(s + shell_read(Seq::<char>::empty()) =~= s);
}

/// A joined list starts with its first element.
proof fn lemma_join_starts_with_first(ls: Seq<Seq<char>>, sep: Seq<char>)
    requires
        ls.len() >= 1,
    ensures
        starts_with(join_with(ls, sep), ls[0]),
    decreases ls.len(),
{
    if ls.len() == 1 {
        assert(ls[0].take(ls[0].len() as int) =~= ls[0]);
    } else {
        lemma_join_starts_with_first(ls.drop_last(), sep);
        let a = join_with(ls.drop_last(), sep);
        assert(ls.drop_last()[0] == ls[0]);
        assert(join_with(ls, sep) == a + sep + ls.last());
        assert((a + sep + ls.last()).take(ls[0].len() as int) =~= a.take(ls[0].len() as int));
    }
}

/// The exported command names the method: it starts `curl '` for GET and
/// `curl -X METHOD '` for every other method, so curl sends that method.
pub proof fn lemma_curl_names_method(r: RequestModel)
    ensures
        starts_with(
            spec_to_curl(r),
            match r.method {
                HttpMethod::Get => "curl '"@,
                HttpMethod::Post => "curl -X POST '"@,
                HttpMethod::Put => "curl -X PUT '"@,
                HttpMethod::Patch => "curl -X PATCH '"@,
                HttpMethod::Delete => "curl -X DELETE '"@,
                HttpMethod::Head => "curl -X HEAD '"@,
                HttpMethod::Options => "curl -X OPTIONS '"@,
            },
        ),
{
    reveal_strlit("curl");
    reveal_strlit(" -X ");
    reveal_strlit("GET");
    reveal_strlit("POST");
    reveal_strlit("PUT");
    reveal_strlit("PATCH");
    reveal_strlit("DELETE");
    reveal_strlit("HEAD");
    reveal_strlit("OPTIONS");
    reveal_strlit("curl '");
    reveal_strlit("curl -X POST '");
    reveal_strlit("curl -X PUT '");
    reveal_strlit("curl -X PATCH '");
    reveal_strlit("curl -X DELETE '");
    reveal_strlit("curl -X HEAD '");
    reveal_strlit("curl -X OPTIONS '");
    let ls = curl_lines(r);
    let first = ls[0];
    lemma_join_starts_with_first(ls, " \\\n"@);
    let p = match r.method {
        HttpMethod::Get => "curl '"@,
        HttpMethod::Post => "curl -X POST '"@,
        HttpMethod::Put => "curl -X PUT '"@,
        HttpMethod::Patch => "curl -X PATCH '"@,
        HttpMethod::Delete => "curl -X DELETE '"@,
        HttpMethod::Head => "curl -X HEAD '"@,
        HttpMethod::Options => "curl -X OPTIONS '"@,
    };
    let head = "curl"@ + (if r.method != HttpMethod::Get {
        " -X "@ + method_str(r.method)
    } else {
        seq![]
    }) + seq![' '];
    assert(first == head + shell_quoted(r.url));
    assert(head + seq!['\''] =~= p);
    assert(first.take(p.len() as int) =~= p);
    let all = spec_to_curl(r);
    assert(all.take(p.len() as int) =~= all.take(first.len() as int).take(p.len() as int));
}

/// The command's lines, as a shell reads their arguments: the first line
/// ends with the URL; then one `-H` line per header, in order, carrying
/// `Name: value`; then, when there is a body, one `--data-raw` line
/// carrying it. The lines are joined by backslash line continuations.
pub proof fn lemma_curl_arguments(r: RequestModel)
    ensures
        ({
            let ls = curl_lines(r);
            let nh = r.headers.len() as int;
            &&& spec_to_curl(r) == join_with(ls, " \\\n"@)
            &&& ls.len() == 1 + nh + (if r.body is Some { 1int } else { 0int })
            &&& exists|i: int| 0 <= i <= ls[0].len() && #[trigger] shell_read(ls[0].skip(i)) == r.url
            &&& forall|k: int| 0 <= k < nh ==> {
                &&& starts_with(#[trigger] ls[1 + k], "  -H "@)
                &&& shell_read(ls[1 + k].skip(5)) == r.headers[k].0 + ": "@ + r.headers[k].1
            }
            &&& r.body is Some ==> {
                &&& starts_with(ls[1 + nh], "  --data-raw "@)
                &&& shell_read(ls[1 + nh].skip(13)) == r.body.unwrap()
            }
        }),
{
    reveal_strlit("  -H ");
    reveal_strlit("  --data-raw ");
    let ls = curl_lines(r);
    let nh = r.headers.len() as int;
    let head = "curl"@ + (if r.method != HttpMethod::Get {
        " -X "@ + method_str(r.method)
    } else {
        seq![]
    }) + seq![' '];
    assert(ls[0] == head + shell_quoted(r.url));
    assert(ls[0].skip(head.len() as int) =~= shell_quoted(r.url));
    lemma_shell_quoted_reads_back(r.url);
    assert(shell_read(ls[0].skip(head.len() as int)) == r.url);
    assert forall|k: int| 0 <= k < nh implies {
        &&& starts_with(#[trigger] ls[1 + k], "  -H "@)
        &&& shell_read(ls[1 + k].skip(5)) == r.headers[k].0 + ": "@ + r.headers[k].1
    } by {
        let h = r.headers[k];
        let line = "  -H "@ + shell_quoted(h.0 + ": "@ + h.1);
        assert(ls[1 + k] == line);
        assert(line.take(5) =~= "  -H "@);
        assert(line.skip(5) =~= shell_quoted(h.0 + ": "@ + h.1));
        lemma_shell_quoted_reads_back(h.0 + ": "@ + h.1);
    }
    if let Some(b) = r.body {
        let line = "  --data-raw "@ + shell_quoted(b);
        assert(ls[1 + nh] == line);
        assert(line.take(13) =~= "  --data-raw "@);
        assert(line.skip(13) =~= shell_quoted(b));
        lemma_shell_quoted_reads_back(b);
    }
}

} // verus!
