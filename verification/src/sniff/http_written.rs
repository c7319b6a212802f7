//! HTTP/1.x requests as they are sent, and what is read of them.

use crate::sniff;
use crate::sniff::http;
use crate::sniff::http::HttpSniffError;
use crate::text;
use vstd::prelude::*;
use vstd::utf8::*;

verus! {

// ---------------------------------------------------------------------------
// Lines
// ---------------------------------------------------------------------------

/// A line is a request line exactly when it is three pieces with one space between
/// them: capitals, something, and one of the two versions. Every line is pieces
/// without spaces, with one space between them.
pub proof fn request_lines_are_three_pieces(pieces: Seq<Seq<char>>)
    requires
        pieces.len() > 0,
        forall|i: int| 0 <= i < pieces.len() ==> !(#[trigger] pieces[i]).contains(' '),
    ensures
        http::is_request_line(text::joined(pieces, seq![' '])) <==> {
            &&& pieces.len() == 3
            &&& pieces[0].len() > 0
            &&& forall|i: int| 0 <= i < pieces[0].len() ==> 'A' <= #[trigger] pieces[0][i] <= 'Z'
            &&& pieces[1].len() > 0
            &&& pieces[2] == "HTTP/1.0"@ || pieces[2] == "HTTP/1.1"@
        },
{
    let space = seq![' '];
    assert(space.last() == ' ');
    text::splitting_undoes_joining(pieces, space);
    if pieces.len() == 3 {
        assert forall|i: int| 0 <= i < pieces[0].len() implies text::is_ascii_upper(
            #[trigger] pieces[0][i],
        ) == ('A' <= pieces[0][i] <= 'Z') by {}
    }
}

proof fn lemma_last(front: Seq<char>, c: char, back: Seq<char>)
    requires
        !back.contains(c),
    ensures
        text::find_last(front + seq![c] + back, c) == Some(front.len() as int),
    decreases back.len(),
{
    let s = front + seq![c] + back;
    if back.len() == 0 {
        assert(s.last() == c);
    } else {
        assert(s.last() == back.last());
        assert(back.contains(back.last()));
        assert(s.drop_last() =~= front + seq![c] + back.drop_last());
        assert forall|i: int| 0 <= i < back.len() - 1 implies back.drop_last()[i] != c by {
            assert(back.contains(back[i]));
        }
        lemma_last(front, c, back.drop_last());
    }
}

proof fn lemma_no_last(s: Seq<char>, c: char)
    requires
        !s.contains(c),
    ensures
        text::find_last(s, c) is None,
    decreases s.len(),
{
    if s.len() > 0 {
        assert(s.contains(s.last()));
        assert forall|i: int| 0 <= i < s.len() - 1 implies s.drop_last()[i] != c by {
            assert(s.contains(s[i]));
        }
        lemma_no_last(s.drop_last(), c);
    }
}

/// Digits and nothing else.
pub open spec fn are_digits(s: Seq<char>) -> bool {
    forall|i: int| 0 <= i < s.len() ==> '0' <= #[trigger] s[i] <= '9'
}

/// Where a port follows a host it is left out: a colon and digits, at least one.
/// What follows the last colon and is no port stays, and so does a value without a
/// colon.
pub proof fn ports_are_left_out(host: Seq<char>, port: Seq<char>)
    requires
        !port.contains(':'),
    ensures
        host.len() > 0 && port.len() > 0 && are_digits(port) ==> http::without_port(
            host + seq![':'] + port,
        ) == host,
        host.len() == 0 || port.len() == 0 || !are_digits(port) ==> http::without_port(
            host + seq![':'] + port,
        ) == host + seq![':'] + port,
        http::without_port(port) == port,
{
    let value = host + seq![':'] + port;
    let k = host.len() as int;
    lemma_last(host, ':', port);
    lemma_no_last(port, ':');
    assert(value.take(k) =~= host);
    if are_digits(port) {
        assert forall|i: int| k < i < value.len() implies text::is_digit(#[trigger] value[i]) by {
            assert(value[i] == port[i - k - 1]);
        }
    } else {
        let j = choose|j: int| 0 <= j < port.len() && !('0' <= #[trigger] port[j] <= '9');
        assert(value[k + 1 + j] == port[j]);
        assert(!text::is_digit(value[k + 1 + j]));
    }
}

/// The value of a `Host` line gives its host in lower case: white space around it
/// and a port do not count. What is left has to be a host name.
pub proof fn values_give_their_host(
    before: Seq<char>,
    host: Seq<char>,
    port: Option<Seq<char>>,
    behind: Seq<char>,
)
    requires
        text::is_blank(before),
        text::is_blank(behind),
        host.len() > 0,
        !host.contains(':'),
        host[0] != '[',
        !text::has_white_space(host[0]),
        !text::has_white_space(host.last()),
        port matches Some(p) ==> p.len() > 0 && are_digits(p),
    ensures
        ({
            let value = match port {
                Some(p) => host + seq![':'] + p,
                None => host,
            };
            http::host_of_value(before + value + behind) == if sniff::is_hostname(
                text::lowered(host),
            ) {
                Ok(text::lowered(host))
            } else {
                Err(HttpSniffError::InvalidHostname)
            }
        }),
{
    let none = Seq::<char>::empty();
    match port {
        Some(p) => {
            let value = host + seq![':'] + p;
            assert(!p.contains(':')) by {
                if p.contains(':') {
                    let i = choose|i: int| 0 <= i < p.len() && p[i] == ':';
                    assert('0' <= p[i] <= '9');
                }
            }
            assert(value.last() == p.last());
            assert('0' <= p[p.len() - 1] <= '9');
            assert(value[0] == host[0]);
            text::trimming_leaves_the_core(before, value, behind);
            ports_are_left_out(host, p);
        },
        None => {
            text::trimming_leaves_the_core(before, host, behind);
            ports_are_left_out(none, host);
        },
    }
    text::trimming_leaves_the_core(none, host, none);
    assert(none + host + none =~= host);
}

/// A value of white space alone gives no host, and neither does an address in
/// brackets.
pub proof fn empty_values_give_none(blank: Seq<char>, rest: Seq<char>)
    requires
        text::is_blank(blank),
        rest.len() > 0 ==> !text::has_white_space(rest.last()),
    ensures
        http::host_of_value(blank) == Err::<Seq<char>, _>(HttpSniffError::ParseError),
        http::host_of_value(blank + (seq!['['] + rest)) == Err::<Seq<char>, _>(
            HttpSniffError::InvalidHostname,
        ),
{
    let none = Seq::<char>::empty();
    text::trimming_leaves_the_core(blank, none, none);
    assert(blank + none + none =~= blank);
    let value = seq!['['] + rest;
    if rest.len() > 0 {
        assert(value.last() == rest.last());
    }
    text::trimming_leaves_the_core(blank, value, none);
    assert(blank + value + none =~= blank + value);
}

/// A line of a header.
pub open spec fn field(name: Seq<char>, value: Seq<char>) -> Seq<char> {
    name + seq![':'] + value
}

/// A line is no `Host` line: its name is another.
pub open spec fn is_other_field(line: Seq<char>) -> bool {
    exists|name: Seq<char>, value: Seq<char>|
        line == #[trigger] field(name, value) && !name.contains(':')
            && !text::differ_in_case_alone(name, "host"@)
}

/// A line and its place at the head of a list of lines.
proof fn lemma_field(name: Seq<char>, value: Seq<char>, rest: Seq<Seq<char>>)
    requires
        !name.contains(':'),
    ensures
        http::host_in_lines(seq![field(name, value)] + rest) == if text::differ_in_case_alone(
            name,
            "host"@,
        ) {
            http::host_of_value(value)
        } else {
            http::host_in_lines(rest)
        },
{
    let lines = seq![field(name, value)] + rest;
    let colon = seq![':'];
    assert(colon.last() == ':');
    text::separator_is_found_first(name, colon, value);
    assert(lines.drop_first() =~= rest);
    let line = lines[0];
    assert(line.take(name.len() as int) =~= name);
    assert(line.skip(name.len() as int + 1) =~= value);
    text::case_is_ignored(name, "host"@);
}

/// The first line with the name `host`, in whatever case, gives the host; lines of
/// other names before it, and all lines behind it, do not count.
pub proof fn first_host_line_counts(
    before: Seq<Seq<char>>,
    name: Seq<char>,
    value: Seq<char>,
    behind: Seq<Seq<char>>,
)
    requires
        forall|i: int| 0 <= i < before.len() ==> is_other_field(#[trigger] before[i]),
        !name.contains(':'),
        text::differ_in_case_alone(name, "host"@),
    ensures
        http::host_in_lines(before + seq![field(name, value)] + behind) == http::host_of_value(
            value,
        ),
    decreases before.len(),
{
    if before.len() == 0 {
        lemma_field(name, value, behind);
        assert(before + seq![field(name, value)] + behind =~= seq![field(name, value)] + behind);
    } else {
        let tail = before.drop_first();
        assert forall|i: int| 0 <= i < tail.len() implies is_other_field(#[trigger] tail[i]) by {
            assert(tail[i] == before[i + 1]);
        }
        first_host_line_counts(tail, name, value, behind);
        assert(is_other_field(before[0]));
        let (n, v) = choose|n: Seq<char>, v: Seq<char>|
            before[0] == #[trigger] field(n, v) && !n.contains(':')
                && !text::differ_in_case_alone(n, "host"@);
        let rest = tail + seq![field(name, value)] + behind;
        lemma_field(n, v, rest);
        assert(before + seq![field(name, value)] + behind =~= seq![field(n, v)] + rest);
    }
}

/// A header whose lines have other names, up to its end or to an empty line, has no
/// host. A line without a colon is an error.
pub proof fn headers_without_host(
    lines: Seq<Seq<char>>,
    odd: Seq<char>,
    behind: Seq<Seq<char>>,
)
    requires
        forall|i: int| 0 <= i < lines.len() ==> is_other_field(#[trigger] lines[i]),
        odd.len() > 0,
        !odd.contains(':'),
    ensures
        http::host_in_lines(lines) == Err::<Seq<char>, _>(HttpSniffError::HttpNoHost),
        http::host_in_lines(lines + seq![Seq::<char>::empty()] + behind) == Err::<Seq<char>, _>(
            HttpSniffError::HttpNoHost,
        ),
        http::host_in_lines(lines + seq![odd] + behind) == Err::<Seq<char>, _>(
            HttpSniffError::ParseError,
        ),
    decreases lines.len(),
{
    let none = Seq::<char>::empty();
    if lines.len() == 0 {
        let colon = seq![':'];
        assert(colon.last() == ':');
        text::separator_is_found_first(odd, colon, none);
        assert((lines + seq![none] + behind)[0] == none);
        assert((lines + seq![odd] + behind)[0] == odd);
    } else {
        let tail = lines.drop_first();
        assert forall|i: int| 0 <= i < tail.len() implies is_other_field(#[trigger] tail[i]) by {
            assert(tail[i] == lines[i + 1]);
        }
        headers_without_host(tail, odd, behind);
        assert(is_other_field(lines[0]));
        let (n, v) = choose|n: Seq<char>, v: Seq<char>|
            lines[0] == #[trigger] field(n, v) && !n.contains(':')
                && !text::differ_in_case_alone(n, "host"@);
        lemma_field(n, v, tail);
        lemma_field(n, v, tail + seq![none] + behind);
        lemma_field(n, v, tail + seq![odd] + behind);
        assert(lines =~= seq![field(n, v)] + tail);
        assert(lines + seq![none] + behind =~= seq![field(n, v)] + (tail + seq![none] + behind));
        assert(lines + seq![odd] + behind =~= seq![field(n, v)] + (tail + seq![odd] + behind));
    }
}

// ---------------------------------------------------------------------------
// Requests
// ---------------------------------------------------------------------------

proof fn lemma_no_early_end<T>(lines: Seq<Seq<T>>, cr: T, lf: T, behind: Seq<T>, j: int)
    requires
        cr != lf,
        lines.len() > 0,
        forall|i: int|
            0 <= i < lines.len() ==> (#[trigger] lines[i]).len() > 0 && !lines[i].contains(lf),
        0 <= j < text::joined(lines, seq![cr, lf]).len(),
    ensures
        !text::occurs_at(
            text::joined(lines, seq![cr, lf]) + seq![cr, lf, cr, lf] + behind,
            seq![cr, lf, cr, lf],
            j,
        ),
    decreases lines.len(),
{
    let sep = seq![cr, lf];
    let end = seq![cr, lf, cr, lf];
    let s = text::joined(lines, sep) + end + behind;
    let n = lines[0].len() as int;
    if text::occurs_at(s, end, j) {
        let part = s.subrange(j, j + 4);
        assert(part[1] == lf && part[2] == cr && part[3] == lf);
        assert(s[j + 1] == lf && s[j + 2] == cr && s[j + 3] == lf);
        if lines.len() == 1 {
            if j + 1 < n {
                assert(s[j + 1] == lines[0][j + 1]);
                assert(lines[0].contains(lines[0][j + 1]));
            } else {
                assert(s[n] == cr);
            }
        } else {
            let rest = lines.drop_first();
            let tail = text::joined(rest, sep) + end + behind;
            assert(s =~= lines[0] + sep + tail);
            assert(rest[0] == lines[1]);
            if j + 1 < n {
                assert(s[j + 1] == lines[0][j + 1]);
                assert(lines[0].contains(lines[0][j + 1]));
            } else if j + 1 == n {
                assert(s[n] == cr);
            } else if j == n {
                let next = lines[1];
                assert(s[j + 3] == tail[1]);
                if next.len() > 1 {
                    assert(tail[1] == next[1]);
                    assert(next.contains(next[1]));
                } else if rest.len() == 1 {
                    assert(tail[1] == cr);
                } else {
                    assert(text::joined(rest, sep) =~= next + sep + text::joined(
                        rest.drop_first(),
                        sep,
                    ));
                    assert(tail[1] == cr);
                }
            } else if j == n + 1 {
                assert(s[j] == lf);
                assert(part[0] == s[j]);
            } else {
                let k = j - n - 2;
                assert(tail.subrange(k, k + 4) =~= part);
                assert forall|i: int| 0 <= i < rest.len() implies (#[trigger] rest[i]).len() > 0
                    && !rest[i].contains(lf) by {
                    assert(rest[i] == lines[i + 1]);
                }
                lemma_no_early_end(rest, cr, lf, behind, k);
            }
        }
    }
}

proof fn lemma_first_place<T>(front: Seq<T>, end: Seq<T>, behind: Seq<T>)
    requires
        forall|j: int| 0 <= j < front.len() ==> !text::occurs_at(front + end + behind, end, j),
    ensures
        text::find_from(front + end + behind, end, 0) == Some(front.len() as int),
{
    let s = front + end + behind;
    let k = front.len() as int;
    assert(s.subrange(k, k + end.len()) =~= end);
    assert(text::occurs_at(s, end, k));
    text::lemma_find_from(s, end, 0);
}

/// The blank line behind the lines of a header is the first one, whatever follows.
proof fn lemma_blank_line<T>(lines: Seq<Seq<T>>, cr: T, lf: T, behind: Seq<T>)
    requires
        cr != lf,
        lines.len() > 0,
        forall|i: int|
            0 <= i < lines.len() ==> (#[trigger] lines[i]).len() > 0 && !lines[i].contains(lf),
    ensures
        text::find_from(
            text::joined(lines, seq![cr, lf]) + seq![cr, lf, cr, lf] + behind,
            seq![cr, lf, cr, lf],
            0,
        ) == Some(text::joined(lines, seq![cr, lf]).len() as int),
{
    let end = seq![cr, lf, cr, lf];
    let front = text::joined(lines, seq![cr, lf]);
    assert forall|j: int| 0 <= j < front.len() implies !text::occurs_at(
        front + end + behind,
        end,
        j,
    ) by {
        lemma_no_early_end(lines, cr, lf, behind, j);
    }
    lemma_first_place(front, end, behind);
}

proof fn lemma_encoded_together(a: Seq<char>, b: Seq<char>)
    ensures
        encode_utf8(a + b) == encode_utf8(a) + encode_utf8(b),
    decreases a.len(),
{
    if a.len() == 0 {
        assert(a + b =~= b);
        assert(encode_utf8(a) + encode_utf8(b) =~= encode_utf8(b));
    } else {
        lemma_encoded_together(a.drop_first(), b);
        assert((a + b).drop_first() =~= a.drop_first() + b);
        assert((a + b)[0] == a[0]);
        assert(encode_utf8(a + b) =~= encode_utf8(a) + encode_utf8(b));
    }
}

/// The bytes of each line.
pub open spec fn encoded(lines: Seq<Seq<char>>) -> Seq<Seq<u8>> {
    lines.map_values(|l: Seq<char>| encode_utf8(l))
}

proof fn lemma_line_ends()
    ensures
        encode_utf8(seq!['\r', '\n']) == seq![13u8, 10u8],
        encode_utf8(seq!['\r', '\n', '\r', '\n']) == seq![13u8, 10u8, 13u8, 10u8],
{
    let a = seq!['\r', '\n'];
    let b = seq!['\r', '\n', '\r', '\n'];
    assert(is_ascii_chars(a));
    assert(is_ascii_chars(b));
    is_ascii_chars_encode_utf8(a);
    is_ascii_chars_encode_utf8(b);
    assert(a[0] as u8 == 13 && a[1] as u8 == 10);
    assert(b[0] as u8 == 13 && b[1] as u8 == 10 && b[2] as u8 == 13 && b[3] as u8 == 10);
    assert(encode_utf8(a) =~= seq![13u8, 10u8]);
    assert(encode_utf8(b) =~= seq![13u8, 10u8, 13u8, 10u8]);
}

proof fn lemma_encoded_lines(lines: Seq<Seq<char>>)
    requires
        lines.len() > 0,
    ensures
        encode_utf8(text::joined(lines, seq!['\r', '\n'])) == text::joined(
            encoded(lines),
            seq![13u8, 10u8],
        ),
    decreases lines.len(),
{
    let sep = seq!['\r', '\n'];
    lemma_line_ends();
    if lines.len() == 1 {
        assert(encoded(lines)[0] == encode_utf8(lines[0]));
    } else {
        let rest = lines.drop_first();
        lemma_encoded_lines(rest);
        assert(encoded(lines).drop_first() =~= encoded(rest));
        lemma_encoded_together(lines[0] + sep, text::joined(rest, sep));
        lemma_encoded_together(lines[0], sep);
    }
}

/// Lines that a header can have: not empty, of ASCII characters, and without line
/// feeds.
pub open spec fn are_lines(lines: Seq<Seq<char>>) -> bool {
    forall|i: int|
        0 <= i < lines.len() ==> (#[trigger] lines[i]).len() > 0 && is_ascii_chars(lines[i])
            && !lines[i].contains('\n')
}

proof fn lemma_encoded_are_lines(lines: Seq<Seq<char>>)
    requires
        are_lines(lines),
    ensures
        forall|i: int|
            0 <= i < lines.len() ==> (#[trigger] encoded(lines)[i]).len() > 0
                && !encoded(lines)[i].contains(10u8),
{
    assert forall|i: int| 0 <= i < lines.len() implies (#[trigger] encoded(lines)[i]).len() > 0
        && !encoded(lines)[i].contains(10u8) by {
        let l = lines[i];
        is_ascii_chars_encode_utf8(l);
        let b = encode_utf8(l);
        if b.contains(10u8) {
            let j = choose|j: int| 0 <= j < b.len() && b[j] == 10;
            assert(l[j] as u8 == 10);
            assert('\0' <= l[j] <= '\u{7f}');
            assert(l.contains(l[j]));
        }
    }
}

/// A header as it is sent: its lines with line ends between them, and a blank line.
pub open spec fn header(lines: Seq<Seq<char>>) -> Seq<u8> {
    text::joined(encoded(lines), seq![13u8, 10u8]) + seq![13u8, 10u8, 13u8, 10u8]
}

proof fn lemma_padded_lines(lines: Seq<Seq<char>>)
    ensures
        http::host_in_lines(lines + seq![Seq::<char>::empty(), Seq::<char>::empty()])
            == http::host_in_lines(lines),
    decreases lines.len(),
{
    let pad = seq![Seq::<char>::empty(), Seq::<char>::empty()];
    let all = lines + pad;
    if lines.len() == 0 {
        assert(all[0].len() == 0);
    } else {
        lemma_padded_lines(lines.drop_first());
        assert(all.drop_first() =~= lines.drop_first() + pad);
    }
}

proof fn lemma_joined_pad(lines: Seq<Seq<char>>)
    requires
        lines.len() > 0,
    ensures
        text::joined(
            lines + seq![Seq::<char>::empty(), Seq::<char>::empty()],
            seq!['\r', '\n'],
        ) == text::joined(lines, seq!['\r', '\n']) + seq!['\r', '\n', '\r', '\n'],
    decreases lines.len(),
{
    let none = Seq::<char>::empty();
    let pad = seq![none, none];
    let sep = seq!['\r', '\n'];
    let all = lines + pad;
    if lines.len() == 1 {
        let one = all.drop_first();
        let two = one.drop_first();
        assert(one =~= pad);
        assert(two =~= seq![none]);
        assert(text::joined(two, sep) =~= none);
        assert(text::joined(one, sep) =~= none + sep + none);
        assert(text::joined(all, sep) =~= lines[0] + sep + (none + sep + none));
        assert(text::joined(all, sep) =~= lines[0] + seq!['\r', '\n', '\r', '\n']);
    } else {
        lemma_joined_pad(lines.drop_first());
        assert(all.drop_first() =~= lines.drop_first() + pad);
        assert(text::joined(all, sep) =~= text::joined(lines, sep) + seq![
            '\r',
            '\n',
            '\r',
            '\n',
        ]);
    }
}

proof fn lemma_first_capital(line: Seq<char>)
    requires
        http::is_request_line(line),
    ensures
        line.len() > 0,
        'A' <= line[0] <= 'Z',
{
    let parts = text::split_at_each(line, seq![' ']);
    text::lemma_find_from(line, seq![' '], 0);
    assert(text::is_ascii_upper(parts[0][0]));
    assert(parts[0][0] == line[0]);
}

proof fn lemma_header(lines: Seq<Seq<char>>)
    requires
        lines.len() > 0,
        are_lines(lines),
        http::is_request_line(lines[0]),
    ensures
        http::host_of_header(header(lines)) == http::host_in_lines(lines.drop_first()),
        header(lines)[0] as char == lines[0][0],
        65 <= header(lines)[0] <= 90,
{
    let sep = seq!['\r', '\n'];
    let end = seq!['\r', '\n', '\r', '\n'];
    let none = Seq::<char>::empty();
    let pad = seq![none, none];
    let t = text::joined(lines, sep) + end;
    lemma_line_ends();
    lemma_encoded_lines(lines);
    lemma_encoded_together(text::joined(lines, sep), end);
    assert(header(lines) == encode_utf8(t));
    encode_utf8_valid_utf8(t);
    encode_utf8_decode_utf8(t);
    lemma_joined_pad(lines);
    let all = lines + pad;
    assert(sep.last() == '\n');
    assert forall|i: int| 0 <= i < all.len() implies !(#[trigger] all[i]).contains(sep.last()) by {
        if i < lines.len() {
            assert(all[i] == lines[i]);
        }
    }
    text::splitting_undoes_joining(all, sep);
    assert(all[0] == lines[0]);
    assert(all.drop_first() =~= lines.drop_first() + pad);
    lemma_padded_lines(lines.drop_first());
    lemma_first_capital(lines[0]);
    is_ascii_chars_encode_utf8(lines[0]);
    let first = encoded(lines)[0];
    assert(first == encode_utf8(lines[0]));
    assert(text::joined(encoded(lines), seq![13u8, 10u8])[0] == first[0]);
    assert(header(lines)[0] == first[0]);
    assert(first[0] == lines[0][0] as u8);
}

proof fn lemma_first_line(lines: Seq<Seq<char>>, behind: Seq<u8>)
    requires
        lines.len() > 0,
        are_lines(lines),
        http::is_request_line(lines[0]),
    ensures
        !http::has_wrong_first_line(header(lines) + behind),
{
    let sep = seq![13u8, 10u8];
    let first = encoded(lines)[0];
    let s = header(lines) + behind;
    lemma_encoded_are_lines(lines);
    assert(sep.last() == 10);
    assert(first == encode_utf8(lines[0]));
    if lines.len() == 1 {
        let rest = sep + behind;
        assert(s =~= first + sep + rest);
        text::separator_is_found_first(first, sep, rest);
    } else {
        let rest = text::joined(encoded(lines).drop_first(), sep) + seq![13u8, 10u8, 13u8, 10u8]
            + behind;
        assert(s =~= first + sep + rest);
        text::separator_is_found_first(first, sep, rest);
    }
    assert(s.take(first.len() as int) =~= first);
    encode_utf8_valid_utf8(lines[0]);
    encode_utf8_decode_utf8(lines[0]);
}

/// A request gives the host that its lines give, whatever follows its header and
/// however large the header may be.
pub proof fn requests_are_read(lines: Seq<Seq<char>>, behind: Seq<u8>, max: int)
    requires
        lines.len() > 0,
        are_lines(lines),
        http::is_request_line(lines[0]),
    ensures
        http::host_of_prefix(header(lines) + behind, max) == http::host_in_lines(
            lines.drop_first(),
        ),
{
    let s = header(lines) + behind;
    lemma_header(lines);
    lemma_first_line(lines, behind);
    lemma_encoded_are_lines(lines);
    lemma_blank_line(encoded(lines), 13u8, 10u8, behind);
    let k = text::joined(encoded(lines), seq![13u8, 10u8]).len() as int;
    assert(s.take(k + 4) =~= header(lines));
    assert(s[0] == header(lines)[0]);
}

/// The beginning of a request asks for more until the blank line has arrived, while
/// it is shorter than the limit, and is too large from the limit on.
pub proof fn beginning_of_a_request_asks_for_more(lines: Seq<Seq<char>>, cut: int, max: int)
    requires
        lines.len() > 0,
        are_lines(lines),
        http::is_request_line(lines[0]),
        0 < cut < header(lines).len(),
    ensures
        http::host_of_prefix(header(lines).take(cut), max) == Err::<Seq<char>, _>(
            if cut < max {
                HttpSniffError::InsufficientPrefix
            } else {
                HttpSniffError::TooLargeHeader
            },
        ),
{
    let none = Seq::<u8>::empty();
    let whole = header(lines);
    let s = whole.take(cut);
    let more = whole.skip(cut);
    assert(s + more =~= whole);
    assert(whole + none =~= whole);
    lemma_header(lines);
    lemma_first_line(lines, none);
    lemma_encoded_are_lines(lines);
    lemma_blank_line(encoded(lines), 13u8, 10u8, none);
    text::lemma_find_from(s, http::crlf_crlf(), 0);
    if text::find_from(s, http::crlf_crlf(), 0) is Some {
        text::lemma_find_from_extends(s, more, http::crlf_crlf(), 0);
    }
    if let Some(end) = text::find_from(s, http::crlf(), 0) {
        text::lemma_find_from(s, http::crlf(), 0);
        text::lemma_find_from_extends(s, more, http::crlf(), 0);
        assert(s.take(end) =~= whole.take(end));
    }
    assert(s[0] == whole[0]);
}

/// A connection that does not start with a capital letter speaks no HTTP/1.x, and
/// neither does one whose first line is no request line.
pub proof fn other_connections_are_refused(buf: Seq<u8>, line: Seq<char>, behind: Seq<u8>, max: int)
    requires
        buf.len() > 0,
        buf[0] < 65 || buf[0] > 90,
        line.len() > 0,
        is_ascii_chars(line),
        !line.contains('\n'),
        !http::is_request_line(line),
    ensures
        http::host_of_prefix(buf, max) == Err::<Seq<char>, _>(HttpSniffError::ProtocolNotMatched),
        http::host_of_prefix(encode_utf8(line) + seq![13u8, 10u8] + behind, max) == Err::<
            Seq<char>,
            _,
        >(HttpSniffError::ProtocolNotMatched),
        http::host_of_prefix(Seq::empty(), max) == Err::<Seq<char>, _>(HttpSniffError::PeekEmpty),
{
    let sep = seq![13u8, 10u8];
    let first = encode_utf8(line);
    let s = first + sep + behind;
    let lines = seq![line];
    assert(are_lines(lines));
    lemma_encoded_are_lines(lines);
    assert(encoded(lines)[0] == first);
    assert(sep.last() == 10);
    text::separator_is_found_first(first, sep, behind);
    assert(s.take(first.len() as int) =~= first);
    encode_utf8_valid_utf8(line);
    encode_utf8_decode_utf8(line);
}

} // verus!
