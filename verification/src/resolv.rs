//! The resolver configuration that points at the local server.

use vstd::prelude::*;
use crate::text::{starts_with, str_equal, str_starts_with};

verus! {

/// The characters of each line.
pub open spec fn lines_view(lines: Seq<String>) -> Seq<Seq<char>> {
    lines.map_values(|s: String| s@)
}

/// The line that names the local server.
pub open spec fn local_nameserver() -> Seq<char> {
    "nameserver 127.0.0.1"@
}

/// A line that names a server.
pub open spec fn names_server(line: Seq<char>) -> bool {
    starts_with(line, "nameserver"@)
}

/// A line that already names the local server.
pub open spec fn names_local(line: Seq<char>) -> bool {
    line == local_nameserver()
}

/// The lines from here on, `seen` telling whether a server line came before:
/// the local server is named just before the first server line unless that
/// line is the local server line already, or at the end where no line names
/// a server.  Every other line stays as it was.
pub open spec fn with_local_server(lines: Seq<Seq<char>>, seen: bool) -> Seq<Seq<char>>
    decreases lines.len(),
{
    if lines.len() == 0 {
        if seen {
            Seq::empty()
        } else {
            seq![local_nameserver()]
        }
    } else {
        let line = lines[0];
        let rest = lines.drop_first();
        if names_server(line) {
            (if !seen && !names_local(line) {
                seq![local_nameserver(), line]
            } else {
                seq![line]
            }) + with_local_server(rest, true)
        } else {
            seq![line] + with_local_server(rest, seen)
        }
    }
}

/// The lines of a resolver configuration, changed so that the local server
/// comes first.
pub fn resolv_conf_lines(lines: &Vec<String>) -> (r: Vec<String>)
    ensures
        lines_view(r@) == with_local_server(lines_view(lines@), false),
{
    let ghost all = lines_view(lines@);
    let mut out: Vec<String> = Vec::new();
    let mut seen = false;
    let mut i: usize = 0;
    assert(all.skip(0) =~= all);
    assert(lines_view(out@) + with_local_server(all.skip(0), false) =~= with_local_server(
        all,
        false,
    ));
    while i < lines.len()
        invariant
            i <= lines@.len(),
            all == lines_view(lines@),
            lines_view(out@) + with_local_server(all.skip(i as int), seen) == with_local_server(
                all,
                false,
            ),
        decreases lines@.len() - i,
    {
        let line = &lines[i];
        let ghost before = lines_view(out@);
        let ghost rest = all.skip(i + 1);
        assert(all.skip(i as int).drop_first() =~= rest);
        assert(all.skip(i as int)[0] == line@);
        if str_starts_with(line.as_str(), "nameserver") {
            if !seen && !str_equal(line.as_str(), "nameserver 127.0.0.1") {
                out.push("nameserver 127.0.0.1".to_owned());
                out.push(line.clone());
                assert(lines_view(out@) =~= before + seq![local_nameserver(), line@]);
            } else {
                out.push(line.clone());
                assert(lines_view(out@) =~= before + seq![line@]);
            }
            seen = true;
        } else {
            out.push(line.clone());
            assert(lines_view(out@) =~= before + seq![line@]);
        }
        i = i + 1;
    }
    if !seen {
        let ghost before = lines_view(out@);
        out.push("nameserver 127.0.0.1".to_owned());
        assert(lines_view(out@) =~= before + seq![local_nameserver()]);
    }
    assert(all.skip(i as int) =~= Seq::<Seq<char>>::empty());
    assert(lines_view(out@) =~= with_local_server(all, false));
    out
}

/// After a server line has been seen, every line stays as it was.
proof fn lemma_seen_keeps_lines(lines: Seq<Seq<char>>)
    ensures
        with_local_server(lines, true) == lines,
    decreases lines.len(),
{
    if lines.len() > 0 {
        lemma_seen_keeps_lines(lines.drop_first());
        assert(seq![lines[0]] + lines.drop_first() =~= lines);
    }
}

/// The local server line names a server.
proof fn lemma_local_line()
    ensures
        names_server(local_nameserver()),
        names_local(local_nameserver()),
{
    reveal_strlit("nameserver 127.0.0.1");
    reveal_strlit("nameserver");
    assert(local_nameserver().subrange(0, 10) =~= "nameserver"@);
}

/// Changing a configuration that was changed already changes nothing: the
/// local server is never named twice.
pub proof fn lemma_resolv_idempotent(lines: Seq<Seq<char>>)
    ensures
        with_local_server(with_local_server(lines, false), false) == with_local_server(lines, false),
    decreases lines.len(),
{
    lemma_local_line();
    let once = with_local_server(lines, false);
    if lines.len() == 0 {
        assert(once == seq![local_nameserver()]);
        assert(once.drop_first() =~= Seq::<Seq<char>>::empty());
        assert(with_local_server(once, false) =~= seq![local_nameserver()] + with_local_server(
            Seq::empty(),
            true,
        ));
    } else {
        let line = lines[0];
        let rest = lines.drop_first();
        if names_server(line) {
            lemma_seen_keeps_lines(rest);
            if !names_local(line) {
                assert(once == seq![local_nameserver(), line] + rest);
                assert(once.drop_first() =~= seq![line] + rest);
                lemma_seen_keeps_lines(seq![line] + rest);
                assert(with_local_server(once, false) =~= seq![local_nameserver()] + (seq![line]
                    + rest));
            } else {
                assert(once == seq![line] + rest);
                assert(once.drop_first() =~= rest);
            }
        } else {
            lemma_resolv_idempotent(rest);
            let tail = with_local_server(rest, false);
            assert(once == seq![line] + tail);
            assert(once.drop_first() =~= tail);
        }
    }
}

} // verus!
