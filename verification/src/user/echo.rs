//! echo: print the arguments.
use vstd::prelude::*;
use crate::text;

verus! {

/// Texts of the arguments; an argument may be missing.
pub open spec fn args_of(args: Seq<Option<Vec<u8>>>) -> Seq<Option<Seq<u8>>> {
    args.map_values(
        |a: Option<Vec<u8>>|
            match a {
                Some(v) => Some(v@),
                None => None,
            },
    )
}

/// The first argument is "-n".
pub open spec fn no_newline(args: Seq<Option<Seq<u8>>>) -> bool {
    args.len() > 1 && args[1] == Some(seq![45u8, 110u8])
}

/// The arguments from `start` up to `end`, with a space between them.
pub open spec fn joined(args: Seq<Option<Seq<u8>>>, start: int, end: int) -> Seq<u8>
    decreases end - start,
{
    if end <= start {
        seq![]
    } else {
        let before = joined(args, start, end - 1);
        let spaced = if end - 1 > start {
            before.push(32)
        } else {
            before
        };
        match args[end - 1] {
            Some(a) => spaced + a,
            None => spaced,
        }
    }
}

/// What is printed for the arguments, the first of which is the program's name:
/// the others with spaces between them, and a line feed unless "-n" comes first.
pub open spec fn echo_text(args: Seq<Option<Seq<u8>>>) -> Seq<u8> {
    if no_newline(args) {
        joined(args, 2, args.len() as int)
    } else {
        joined(args, 1, args.len() as int).push(10)
    }
}

/// What is printed for the arguments.
pub fn echo_main(args: &Vec<Option<Vec<u8>>>) -> (r: Vec<u8>)
    ensures
        r@ == echo_text(args_of(args@)),
{
    let ghost m = args_of(args@);
    let mut newline: bool = true;
    let mut start: usize = 1;
    if args.len() > 1 {
        match &args[1] {
            Some(a) => {
                let flag: Vec<u8> = vec![45u8, 110u8];
                assert(flag@ =~= seq![45u8, 110u8]);
                if text::same_bytes(a.as_slice(), flag.as_slice()) {
                    newline = false;
                    start = 2;
                }
            },
            None => {},
        }
    }
    assert(newline == !no_newline(m));
    let mut out: Vec<u8> = Vec::new();
    let mut i: usize = start;
    assert(out@ =~= joined(m, start as int, start as int));
    while i < args.len()
        invariant
            1 <= start <= i,
            i <= args@.len() || i == start,
            m == args_of(args@),
            out@ == joined(m, start as int, i as int),
        decreases args@.len() - i,
    {
        let ghost before = out@;
        if i > start {
            out.push(32);
        }
        let ghost spaced = out@;
        match &args[i] {
            Some(a) => {
                let mut copy = crate::bytes::to_vec(a.as_slice(), 0, a.len());
                assert(copy@ =~= a@);
                out.append(&mut copy);
                assert(m[i as int] == Some(a@));
            },
            None => {
                assert(m[i as int] is None);
            },
        }
        assert(out@ == joined(m, start as int, i + 1));
        i += 1;
    }
    if args.len() < start {
        assert(joined(m, start as int, args@.len() as int) =~= seq![]);
        assert(out@ =~= seq![]);
    }
    if newline {
        out.push(10);
    }
    out
}

/// Without arguments a line feed is printed alone; one argument stands before it.
pub proof fn law_echo_of_one(args: Seq<Option<Seq<u8>>>)
    ensures
        args.len() <= 1 ==> echo_text(args) == seq![10u8],
        args.len() == 2 && args[1] is Some && args[1] != Some(seq![45u8, 110u8]) ==> echo_text(args)
            == args[1]->0 + seq![10u8],
{
    if args.len() <= 1 {
        assert(joined(args, 1, args.len() as int) =~= seq![]);
        assert(echo_text(args) =~= seq![10u8]);
    } else if args.len() == 2 && args[1] is Some && args[1] != Some(seq![45u8, 110u8]) {
        assert(joined(args, 1, 1) =~= seq![]);
        assert(joined(args, 1, 2) =~= args[1]->0);
        assert(echo_text(args) =~= args[1]->0 + seq![10u8]);
    }
}

/// What is printed for the arguments up to `end` does not hang on those behind.
proof fn lemma_joined(a: Seq<Option<Seq<u8>>>, b: Seq<Option<Seq<u8>>>, d: int, start: int, end: int)
    requires
        forall|i: int| start <= i < end ==> #[trigger] a[i] == b[i + d],
    ensures
        joined(a, start, end) == joined(b, start + d, end + d),
    decreases end - start,
{
    if start < end {
        lemma_joined(a, b, d, start, end - 1);
        assert(a[end - 1] == b[end - 1 + d]);
    }
}

/// One argument more adds a space and that argument before the line feed.
pub proof fn law_echo_of_one_more(args: Seq<Option<Seq<u8>>>, a: Seq<u8>)
    requires
        args.len() >= 2,
        args[1] != Some(seq![45u8, 110u8]),
    ensures
        echo_text(args).len() > 0,
        echo_text(args.push(Some(a))) == echo_text(args).drop_last() + seq![32u8] + a + seq![10u8],
{
    let n = args.len() as int;
    let more = args.push(Some(a));
    lemma_joined(args, more, 0, 1, n);
    assert(joined(more, 1, n + 1) == joined(args, 1, n).push(32) + a);
    assert(echo_text(args).drop_last() =~= joined(args, 1, n));
    assert(echo_text(more) =~= echo_text(args).drop_last() + seq![32u8] + a + seq![10u8]);
}

/// "-n" before the other arguments leaves out the line feed and nothing else.
pub proof fn law_echo_without_line_feed(args: Seq<Option<Seq<u8>>>)
    requires
        args.len() >= 1,
        args.len() >= 2 ==> args[1] != Some(seq![45u8, 110u8]),
    ensures
        echo_text(args.insert(1, Some(seq![45u8, 110u8]))).push(10) == echo_text(args),
{
    let more = args.insert(1, Some(seq![45u8, 110u8]));
    assert forall|i: int| 1 <= i < args.len() implies #[trigger] args[i] == more[i + 1] by {}
    lemma_joined(args, more, 1, 1, args.len() as int);
}

} // verus!
