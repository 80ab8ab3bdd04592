//! The arguments of a new program, as they are laid out on its stack.

use vstd::prelude::*;

use crate::context::Context;
use super::command::views;

verus! {

/// The bytes that the arguments occupy on the stack: each argument followed
/// by a zero byte, in order.
pub open spec fn arg_block(args: Seq<Seq<u8>>) -> Seq<u8>
    decreases args.len(),
{
    if args.len() == 0 {
        Seq::empty()
    } else {
        arg_block(args.drop_last()) + args.last() + seq![0u8]
    }
}

/// The context once `argc` arguments have been placed at `sp`: the stack
/// pointer and `a1` point at them and `a0` holds their count.
pub open spec fn with_args(cx: Context, sp: usize, argc: usize) -> Context {
    Context { sp, a0: argc, a1: sp, ..cx }
}

proof fn lemma_arg_block_len(args: Seq<Seq<u8>>)
    ensures
        arg_block(args).len() >= args.len(),
    decreases args.len(),
{
    if args.len() > 0 {
        lemma_arg_block_len(args.drop_last());
    }
}

/// Places the program path and the arguments below the stack pointer of
/// `cx`: returns the bytes to store at the new stack pointer, and sets the
/// stack pointer and `a1` to that address and `a0` to the number of
/// arguments, the path included.
pub fn push_args(cx: &mut Context, path: &[u8], args: &Vec<Vec<u8>>) -> (block: Vec<u8>)
    requires
        arg_block(seq![path@] + views(args@)).len() <= old(cx).sp,
    ensures
        block@ == arg_block(seq![path@] + views(args@)),
        *final(cx) == with_args(*old(cx), (old(cx).sp - block@.len()) as usize, (args@.len() + 1) as usize),
{
    let ghost all = seq![path@] + views(args@);
    let mut block: Vec<u8> = Vec::new();
    let mut k: usize = 0;
    while k < path.len()
        invariant
            k <= path@.len(),
            block@ == path@.subrange(0, k as int),
        decreases path@.len() - k,
    {
        block.push(path[k]);
        k = k + 1;
        proof {
            assert(block@ =~= path@.subrange(0, k as int));
        }
    }
    block.push(0);
    proof {
        assert(path@.subrange(0, path@.len() as int) =~= path@);
        let s1 = all.subrange(0, 1);
        assert(s1.drop_last() =~= Seq::<Seq<u8>>::empty());
        assert(arg_block(s1.drop_last()) =~= Seq::<u8>::empty());
        assert(s1.last() == path@);
        assert(block@ =~= arg_block(s1));
    }
    let mut a: usize = 0;
    while a < args.len()
        invariant
            a <= args@.len(),
            all == seq![path@] + views(args@),
            block@ == arg_block(all.subrange(0, a + 1)),
        decreases args@.len() - a,
    {
        let ghost before = block@;
        let arg = &args[a];
        let mut k: usize = 0;
        while k < arg.len()
            invariant
                k <= arg@.len(),
                block@ == before + arg@.subrange(0, k as int),
            decreases arg@.len() - k,
        {
            block.push(arg[k]);
            k = k + 1;
            proof {
                assert(block@ =~= before + arg@.subrange(0, k as int));
            }
        }
        block.push(0);
        proof {
            assert(arg@.subrange(0, arg@.len() as int) =~= arg@);
            let s = all.subrange(0, a + 2);
            assert(s.drop_last() =~= all.subrange(0, a + 1));
            assert(s.last() == arg@);
            assert(block@ =~= arg_block(s));
        }
        a = a + 1;
    }
    proof {
        assert(all.subrange(0, args@.len() + 1 as int) =~= all);
        lemma_arg_block_len(all);
    }
    let sp = cx.sp - block.len();
    cx.sp = sp;
    cx.a0 = args.len() + 1;
    cx.a1 = sp;
    block
}

/// The arguments among the first `j` take no fewer bytes than those among
/// the first `i`.
proof fn lemma_arg_block_prefix(args: Seq<Seq<u8>>, i: int, j: int)
    requires
        0 <= i <= j <= args.len(),
    ensures
        arg_block(args.subrange(0, i)).len() <= arg_block(args.subrange(0, j)).len(),
    decreases j - i,
{
    if i < j {
        lemma_arg_block_prefix(args, i, j - 1);
        assert(args.subrange(0, j).drop_last() =~= args.subrange(0, j - 1));
    }
}

/// Whether the path and the arguments, each with its zero byte, fit below
/// the stack pointer `sp`.
fn args_fit(path: &[u8], args: &Vec<Vec<u8>>, sp: usize) -> (r: bool)
    ensures
        r == (arg_block(seq![path@] + views(args@)).len() <= sp),
{
    let ghost all = seq![path@] + views(args@);
    proof {
        assert(all.subrange(0, 1).drop_last() =~= Seq::<Seq<u8>>::empty());
        assert(arg_block(all.subrange(0, 1).drop_last()) =~= Seq::<u8>::empty());
        assert(all.subrange(0, 1).last() == path@);
        assert(arg_block(all.subrange(0, 1)).len() == path@.len() + 1);
        assert(all.subrange(0, all.len() as int) =~= all);
    }
    if path.len() >= sp {
        proof {
            lemma_arg_block_prefix(all, 1, all.len() as int);
        }
        return false;
    }
    let mut need: usize = path.len() + 1;
    let mut a: usize = 0;
    while a < args.len()
        invariant
            a <= args@.len(),
            all == seq![path@] + views(args@),
            need <= sp,
            need == arg_block(all.subrange(0, a + 1)).len(),
        decreases args@.len() - a,
    {
        let l = args[a].len();
        proof {
            assert(all.subrange(0, a + 2).drop_last() =~= all.subrange(0, a + 1));
            assert(all[a + 1] == args@[a as int]@);
        }
        if l >= sp - need {
            proof {
                lemma_arg_block_prefix(all, a + 2, all.len() as int);
                assert(all.subrange(0, all.len() as int) =~= all);
            }
            return false;
        }
        need = need + l + 1;
        a = a + 1;
    }
    proof {
        assert(all.subrange(0, a + 1) =~= all);
    }
    true
}

/// The start of a program that `exec` runs with the context `cx`: `None`
/// when the path and the arguments do not fit below its stack pointer;
/// otherwise its context with them placed below the stack pointer (see
/// `push_args`), and the bytes to store at the new stack pointer.
pub fn exec_args(cx: &Context, path: &[u8], args: &Vec<Vec<u8>>) -> (r: Option<(Context, Vec<u8>)>)
    ensures
        r.is_none() == (arg_block(seq![path@] + views(args@)).len() > cx.sp),
        r matches Some(p) ==> p.1@ == arg_block(seq![path@] + views(args@)) && p.0 == with_args(
            *cx,
            (cx.sp - p.1@.len()) as usize,
            (args@.len() + 1) as usize,
        ),
{
    if !args_fit(path, args, cx.sp) {
        return None;
    }
    let mut c = *cx;
    let block = push_args(&mut c, path, args);
    Some((c, block))
}

} // verus!
