//! Pulling output redirections (`>`, `>>`, `1>`, `1>>`, `2>`, `2>>`) out of a word list.
use vstd::prelude::*;
use crate::text::str_is;

verus! {

/// A redirection target: the file's name and whether to append to it.
pub open spec fn target_view(t: Option<(String, bool)>) -> Option<(Seq<char>, bool)> {
    match t {
        Some((f, append)) => Some((f@, append)),
        None => None,
    }
}

pub open spec fn is_stdout_append(w: Seq<char>) -> bool {
    w == seq!['>', '>'] || w == seq!['1', '>', '>']
}

pub open spec fn is_stdout_truncate(w: Seq<char>) -> bool {
    w == seq!['>'] || w == seq!['1', '>']
}

pub open spec fn is_stderr_append(w: Seq<char>) -> bool {
    w == seq!['2', '>', '>']
}

pub open spec fn is_stderr_truncate(w: Seq<char>) -> bool {
    w == seq!['2', '>']
}

pub open spec fn is_redirect_op(w: Seq<char>) -> bool {
    is_stdout_append(w) || is_stdout_truncate(w) || is_stderr_append(w) || is_stderr_truncate(w)
}

/// Every redirection operator met while scanning the words left to right is followed
/// by a file name (the operator's file name is skipped, so it may itself look like an
/// operator).
pub open spec fn redirects_complete(parts: Seq<Seq<char>>) -> bool
    decreases parts.len(),
{
    if parts.len() == 0 {
        true
    } else if is_redirect_op(parts[0]) {
        parts.len() >= 2 && redirects_complete(parts.skip(2))
    } else {
        redirects_complete(parts.skip(1))
    }
}

/// The plain words, the stdout target and the stderr target of `parts`; of several
/// redirections of one stream the last one counts.
pub open spec fn split_redirects(parts: Seq<Seq<char>>) -> (
    Seq<Seq<char>>,
    Option<(Seq<char>, bool)>,
    Option<(Seq<char>, bool)>,
)
    decreases parts.len(),
{
    if parts.len() == 0 {
        (seq![], None, None)
    } else if is_redirect_op(parts[0]) {
        if parts.len() < 2 {
            (seq![], None, None)
        } else {
            let (args, out, err) = split_redirects(parts.skip(2));
            let target = Some((parts[1], is_stdout_append(parts[0]) || is_stderr_append(parts[0])));
            if is_stdout_append(parts[0]) || is_stdout_truncate(parts[0]) {
                (args, if out is Some { out } else { target }, err)
            } else {
                (args, out, if err is Some { err } else { target })
            }
        }
    } else {
        let (args, out, err) = split_redirects(parts.skip(1));
        (seq![parts[0]] + args, out, err)
    }
}

/// Separates the redirections from the other words of a command.
/// (A trailing operator with no file name after it would make the scan loop forever,
/// so such word lists are not accepted.)
pub fn extract_redirect(parts: &[String]) -> (res: (Vec<String>, Option<(String, bool)>, Option<(String, bool)>))
    requires
        redirects_complete(parts.deep_view()),
    ensures
        res.0.deep_view() == split_redirects(parts.deep_view()).0,
        target_view(res.1) == split_redirects(parts.deep_view()).1,
        target_view(res.2) == split_redirects(parts.deep_view()).2,
{
    let ghost all = parts.deep_view();
    let mut args: Vec<String> = Vec::new();
    let mut stdout_file: Option<(String, bool)> = None;
    let mut stderr_file: Option<(String, bool)> = None;
    let mut i: usize = 0;
    assert(all.skip(0) == all);
    while i < parts.len()
        invariant
            all == parts.deep_view(),
            i <= parts@.len(),
            redirects_complete(all.skip(i as int)),
            ({
                let (ra, ro, re) = split_redirects(all.skip(i as int));
                let (ta, to, te) = split_redirects(all);
                &&& ta == args.deep_view() + ra
                &&& to == (if ro is Some { ro } else { target_view(stdout_file) })
                &&& te == (if re is Some { re } else { target_view(stderr_file) })
            }),
        decreases parts@.len() - i,
    {
        let ghost rest = all.skip(i as int);
        let ghost old_args = args.deep_view();
        let p = &parts[i];
        assert(rest[0] == p@);
        let stdout_append = str_is(p.as_str(), &['>', '>']) || str_is(p.as_str(), &['1', '>', '>']);
        let gt: [char; 1] = ['>'];
        assert(gt@ =~= seq!['>']);
        let stdout_trunc = str_is(p.as_str(), &gt) || str_is(p.as_str(), &['1', '>']);
        let stderr_append = str_is(p.as_str(), &['2', '>', '>']);
        let stderr_trunc = str_is(p.as_str(), &['2', '>']);
        assert(stdout_append == is_stdout_append(p@));
        assert(stdout_trunc == is_stdout_truncate(p@));
        assert(stderr_append == is_stderr_append(p@));
        assert(stderr_trunc == is_stderr_truncate(p@));
        if stdout_append || stdout_trunc || stderr_append || stderr_trunc {
            assert(rest.len() >= 2);
            assert(rest.skip(2) == all.skip(i + 2));
            assert(rest[1] == parts@[i + 1]@);
            let target = (parts[i + 1].clone(), stdout_append || stderr_append);
            if stdout_append || stdout_trunc {
                stdout_file = Some(target);
            } else {
                stderr_file = Some(target);
            }
            i = i + 2;
        } else {
            assert(rest.skip(1) == all.skip(i + 1));
            args.push(p.clone());
            assert(args.deep_view() == old_args.push(p@));
            assert(old_args + (seq![p@] + split_redirects(all.skip(i + 1)).0)
                == args.deep_view() + split_redirects(all.skip(i + 1)).0);
            i = i + 1;
        }
    }
    assert(all.skip(i as int).len() == 0);
    assert(args.deep_view() + Seq::<Seq<char>>::empty() == args.deep_view());
    (args, stdout_file, stderr_file)
}


/// The later of two targets for one stream.
pub open spec fn later_target(
    first: Option<(Seq<char>, bool)>,
    second: Option<(Seq<char>, bool)>,
) -> Option<(Seq<char>, bool)> {
    if second is Some { second } else { first }
}

/// Without redirection operators the words pass through untouched and no stream
/// is redirected.
pub proof fn law_no_operators_no_redirects(parts: Seq<Seq<char>>)
    requires
        forall|i: int| 0 <= i < parts.len() ==> !is_redirect_op(#[trigger] parts[i]),
    ensures
        redirects_complete(parts),
        split_redirects(parts) == (parts, None::<(Seq<char>, bool)>, None::<(Seq<char>, bool)>),
    decreases parts.len(),
{
    if parts.len() > 0 {
        let rest = parts.skip(1);
        assert forall|i: int| 0 <= i < rest.len() implies !is_redirect_op(#[trigger] rest[i]) by {
            assert(rest[i] == parts[i + 1]);
        }
        law_no_operators_no_redirects(rest);
        assert(seq![parts[0]] + rest == parts);
    }
}

/// Splitting a command made of a complete part `a` followed by `b` is splitting each:
/// the words of `a` come before those of `b`, and for each stream a redirection in
/// `b` overrides one in `a` (the last redirection wins).
pub proof fn law_split_concat(a: Seq<Seq<char>>, b: Seq<Seq<char>>)
    requires
        redirects_complete(a),
    ensures
        redirects_complete(a + b) == redirects_complete(b),
        split_redirects(a + b) == (
            split_redirects(a).0 + split_redirects(b).0,
            later_target(split_redirects(a).1, split_redirects(b).1),
            later_target(split_redirects(a).2, split_redirects(b).2),
        ),
    decreases a.len(),
{
    if a.len() == 0 {
        assert(a + b == b);
        assert(Seq::<Seq<char>>::empty() + split_redirects(b).0 == split_redirects(b).0);
    } else if is_redirect_op(a[0]) {
        assert((a + b)[0] == a[0]);
        assert((a + b)[1] == a[1]);
        assert((a + b).skip(2) == a.skip(2) + b);
        law_split_concat(a.skip(2), b);
    } else {
        assert((a + b)[0] == a[0]);
        assert((a + b).skip(1) == a.skip(1) + b);
        law_split_concat(a.skip(1), b);
        let ra = split_redirects(a.skip(1)).0;
        let rb = split_redirects(b).0;
        assert(seq![a[0]] + (ra + rb) == (seq![a[0]] + ra) + rb);
    }
}

/// Appending `op file` to a complete command redirects that operator's stream to
/// `file` (appending for `>>`, `1>>`, `2>>`), whatever redirected it before, and
/// leaves the words and the other stream as they were.
pub proof fn law_last_redirect_wins(parts: Seq<Seq<char>>, op: Seq<char>, file: Seq<char>)
    requires
        redirects_complete(parts),
        is_redirect_op(op),
    ensures
        ({
            let (args, out, err) = split_redirects(parts + seq![op, file]);
            let (args0, out0, err0) = split_redirects(parts);
            let target = Some((file, is_stdout_append(op) || is_stderr_append(op)));
            &&& args == args0
            &&& (is_stdout_append(op) || is_stdout_truncate(op)) ==> out == target && err == err0
            &&& (is_stderr_append(op) || is_stderr_truncate(op)) ==> err == target && out == out0
        }),
{
    let tail = seq![op, file];
    assert(tail[0] == op);
    assert(tail[1] == file);
    assert(tail.skip(2) == Seq::<Seq<char>>::empty());
    assert(split_redirects(tail.skip(2)) == (Seq::<Seq<char>>::empty(), None::<(Seq<char>, bool)>, None::<(Seq<char>, bool)>));
    if is_stdout_append(op) || is_stdout_truncate(op) {
        assert(!is_stderr_append(op) && !is_stderr_truncate(op)) by {
            if op.len() == 2 {
                assert(op[0] == '>' || op[0] == '1');
            }
        }
    }
    law_split_concat(parts, tail);
    let a0 = split_redirects(parts).0;
    assert(a0 + Seq::<Seq<char>>::empty() == a0);
}

} // verus!
