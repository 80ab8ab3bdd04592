//! The command line of `exec`: a program path and its arguments joined by
//! single spaces, and how the exec system call splits it again.

use vstd::prelude::*;

verus! {

/// The byte that separates the words of a command line.
pub const SPACE: u8 = 32;

/// Length of the run of bytes other than `sep` at the start of `s`.
pub open spec fn piece_len(s: Seq<u8>, sep: u8) -> nat
    decreases s.len(),
{
    if s.len() == 0 || s[0] == sep {
        0
    } else {
        1 + piece_len(s.drop_first(), sep)
    }
}

/// The pieces of `s` between separators `sep`: its maximal runs of other
/// bytes, in order; empty runs are no pieces.
pub open spec fn pieces(s: Seq<u8>, sep: u8) -> Seq<Seq<u8>>
    decreases s.len(),
{
    if s.len() == 0 {
        Seq::empty()
    } else if s[0] == sep {
        pieces(s.drop_first(), sep)
    } else {
        let n = piece_len(s, sep);
        if 0 < n <= s.len() {
            seq![s.take(n as int)] + pieces(s.skip(n as int), sep)
        } else {
            Seq::empty()
        }
    }
}

/// Length of the run of non-space bytes at the start of `s`.
pub open spec fn word_len(s: Seq<u8>) -> nat {
    piece_len(s, SPACE)
}

/// The words of `s`: its maximal runs of non-space bytes, in order.
pub open spec fn words(s: Seq<u8>) -> Seq<Seq<u8>> {
    pieces(s, SPACE)
}

/// The words `ws` joined by single spaces.
pub open spec fn joined(ws: Seq<Seq<u8>>) -> Seq<u8>
    decreases ws.len(),
{
    if ws.len() == 0 {
        Seq::empty()
    } else if ws.len() == 1 {
        ws[0]
    } else {
        ws[0] + seq![SPACE] + joined(ws.drop_first())
    }
}

/// A word that can stand on a command line: not empty, with no space.
pub open spec fn is_word(w: Seq<u8>) -> bool {
    w.len() > 0 && forall|j: int| 0 <= j < w.len() ==> #[trigger] w[j] != SPACE
}

/// The contents of a list of byte strings.
pub open spec fn views(v: Seq<Vec<u8>>) -> Seq<Seq<u8>> {
    v.map_values(|x: Vec<u8>| x@)
}

proof fn lemma_piece_len_exact(t: Seq<u8>, m: int, sep: u8)
    requires
        0 <= m <= t.len(),
        forall|k: int| 0 <= k < m ==> #[trigger] t[k] != sep,
        m == t.len() || t[m] == sep,
    ensures
        piece_len(t, sep) == m,
    decreases m,
{
    if m > 0 {
        lemma_piece_len_exact(t.drop_first(), m - 1, sep);
    }
}

/// The pieces of a separator-led `s.skip(i)` are those of the rest of it.
proof fn lemma_pieces_sep(s: Seq<u8>, i: int, sep: u8)
    requires
        0 <= i < s.len(),
        s[i] == sep,
    ensures
        pieces(s.skip(i), sep) == pieces(s.skip(i + 1), sep),
{
    assert(s.skip(i).drop_first() =~= s.skip(i + 1));
}

/// A piece that starts at `i` and ends at `j` (at a separator or at the
/// end) is the first piece of `s.skip(i)`.
proof fn lemma_pieces_piece(s: Seq<u8>, i: int, j: int, sep: u8)
    requires
        0 <= i < j <= s.len(),
        forall|k: int| i <= k < j ==> #[trigger] s[k] != sep,
        j == s.len() || s[j] == sep,
    ensures
        pieces(s.skip(i), sep) == seq![s.subrange(i, j)] + pieces(s.skip(j), sep),
{
    let t = s.skip(i);
    assert forall|k: int| 0 <= k < j - i implies #[trigger] t[k] != sep by {
        assert(s[i + k] != sep);
    }
    lemma_piece_len_exact(t, j - i, sep);
    assert(t.take(j - i) =~= s.subrange(i, j));
    assert(t.skip(j - i) =~= s.skip(j));
}

/// The pieces of `s` between separators `sep`.
pub fn split_on(s: &[u8], sep: u8) -> (r: Vec<Vec<u8>>)
    ensures
        views(r@) == pieces(s@, sep),
{
    let n = s.len();
    let mut all: Vec<Vec<u8>> = Vec::new();
    let mut i: usize = 0;
    proof {
        assert(s@.skip(0) =~= s@);
    }
    while i < n
        invariant
            n == s@.len(),
            i <= n,
            pieces(s@, sep) == views(all@) + pieces(s@.skip(i as int), sep),
        decreases n - i,
    {
        if s[i] == sep {
            proof {
                lemma_pieces_sep(s@, i as int, sep);
            }
            i = i + 1;
        } else {
            let mut w: Vec<u8> = Vec::new();
            let mut j: usize = i;
            while j < n && s[j] != sep
                invariant
                    n == s@.len(),
                    i <= j <= n,
                    w@ == s@.subrange(i as int, j as int),
                    forall|k: int| i <= k < j ==> #[trigger] s@[k] != sep,
                decreases n - j,
            {
                w.push(s[j]);
                j = j + 1;
                proof {
                    assert(w@ =~= s@.subrange(i as int, j as int));
                }
            }
            proof {
                assert(s@[i as int] != sep);
                lemma_pieces_piece(s@, i as int, j as int, sep);
                let old_all = views(all@);
                assert(views(all@.push(w)) =~= old_all.push(w@));
                assert(old_all + (seq![w@] + pieces(s@.skip(j as int), sep)) =~= old_all.push(w@) + pieces(
                    s@.skip(j as int),
                    sep,
                ));
            }
            all.push(w);
            i = j;
        }
    }
    proof {
        assert(s@.skip(n as int) =~= Seq::<u8>::empty());
        assert(pieces(s@.skip(n as int), sep) =~= Seq::<Seq<u8>>::empty());
        assert(views(all@) + Seq::<Seq<u8>>::empty() =~= views(all@));
    }
    all
}

/// The words of a command line: the path of the program and its arguments,
/// as the exec system call reads them; `None` when the line holds no word.
pub fn parse_command(cmd: &[u8]) -> (r: Option<(Vec<u8>, Vec<Vec<u8>>)>)
    ensures
        r.is_none() == (words(cmd@).len() == 0),
        r matches Some(p) ==> p.0@ == words(cmd@)[0] && views(p.1@) == words(cmd@).drop_first(),
{
    let mut all = split_on(cmd, SPACE);
    if all.len() == 0 {
        return None;
    }
    let path = all.remove(0);
    proof {
        assert(views(all@) =~= words(cmd@).drop_first());
    }
    Some((path, all))
}

proof fn lemma_joined_push(ws: Seq<Seq<u8>>, x: Seq<u8>)
    requires
        ws.len() >= 1,
    ensures
        joined(ws.push(x)) == joined(ws) + seq![SPACE] + x,
    decreases ws.len(),
{
    let wx = ws.push(x);
    assert(wx[0] == ws[0]);
    assert(wx.len() >= 2);
    if ws.len() == 1 {
        assert(wx.drop_first() =~= seq![x]);
        assert(joined(seq![x]) == x);
        assert(joined(ws) == ws[0]);
    } else {
        lemma_joined_push(ws.drop_first(), x);
        assert(wx.drop_first() =~= ws.drop_first().push(x));
        assert(ws[0] + seq![SPACE] + (joined(ws.drop_first()) + seq![SPACE] + x) =~= ws[0] + seq![SPACE]
            + joined(ws.drop_first()) + seq![SPACE] + x);
    }
}

/// The command line that runs the program `path` with arguments `args`:
/// the path and the arguments joined by single spaces.
pub fn exec(path: &[u8], args: &Vec<Vec<u8>>) -> (r: Vec<u8>)
    ensures
        r@ == joined(seq![path@] + views(args@)),
{
    let mut r: Vec<u8> = Vec::new();
    let mut k: usize = 0;
    while k < path.len()
        invariant
            k <= path@.len(),
            r@ == path@.subrange(0, k as int),
        decreases path@.len() - k,
    {
        r.push(path[k]);
        k = k + 1;
        proof {
            assert(r@ =~= path@.subrange(0, k as int));
        }
    }
    proof {
        assert(path@.subrange(0, path@.len() as int) =~= path@);
        assert(seq![path@] + views(args@.subrange(0, 0)) =~= seq![path@]);
    }
    let mut a: usize = 0;
    while a < args.len()
        invariant
            a <= args@.len(),
            r@ == joined(seq![path@] + views(args@.subrange(0, a as int))),
        decreases args@.len() - a,
    {
        let ghost before = r@;
        r.push(SPACE);
        let arg = &args[a];
        let mut k: usize = 0;
        while k < arg.len()
            invariant
                k <= arg@.len(),
                r@ == before + seq![SPACE] + arg@.subrange(0, k as int),
            decreases arg@.len() - k,
        {
            r.push(arg[k]);
            k = k + 1;
            proof {
                assert(r@ =~= before + seq![SPACE] + arg@.subrange(0, k as int));
            }
        }
        proof {
            let ws = seq![path@] + views(args@.subrange(0, a as int));
            assert(arg@.subrange(0, arg@.len() as int) =~= arg@);
            lemma_joined_push(ws, arg@);
            assert(seq![path@] + views(args@.subrange(0, a + 1)) =~= ws.push(arg@));
        }
        a = a + 1;
    }
    proof {
        assert(args@.subrange(0, args@.len() as int) =~= args@);
    }
    r
}

proof fn lemma_word_len_prefix(w: Seq<u8>, t: Seq<u8>)
    requires
        is_word(w),
        t.len() == 0 || t[0] == SPACE,
    ensures
        word_len(w + t) == w.len(),
{
    let s = w + t;
    assert forall|k: int| 0 <= k < w.len() implies #[trigger] s[k] != SPACE by {
        assert(s[k] == w[k]);
    }
    if t.len() > 0 {
        assert(s[w.len() as int] == t[0]);
    }
    lemma_piece_len_exact(s, w.len() as int, SPACE);
}

/// Splitting a command line that `exec` joined gives back the path and the
/// arguments, as long as each is a word: non-empty, with no space.
pub proof fn law_command_round_trip(ws: Seq<Seq<u8>>)
    requires
        forall|i: int| 0 <= i < ws.len() ==> is_word(#[trigger] ws[i]),
    ensures
        words(joined(ws)) == ws,
    decreases ws.len(),
{
    if ws.len() == 0 {
        assert(words(joined(ws)) =~= ws);
    } else {
        let w = ws[0];
        assert(is_word(w));
        let rest = ws.drop_first();
        assert forall|i: int| 0 <= i < rest.len() implies is_word(#[trigger] rest[i]) by {
            assert(rest[i] == ws[i + 1]);
        }
        law_command_round_trip(rest);
        let t: Seq<u8> = if ws.len() == 1 {
            Seq::empty()
        } else {
            seq![SPACE] + joined(rest)
        };
        let s = w + t;
        assert(joined(ws) =~= s);
        lemma_word_len_prefix(w, t);
        assert(s[0] == w[0]);
        assert(s.take(w.len() as int) =~= w);
        assert(s.skip(w.len() as int) =~= t);
        assert(words(s) == seq![w] + words(t));
        if ws.len() == 1 {
            assert(words(t) =~= Seq::<Seq<u8>>::empty());
            assert(words(joined(ws)) =~= ws);
        } else {
            assert(t[0] == SPACE);
            assert(t.drop_first() =~= joined(rest));
            assert(words(t) == words(joined(rest)));
            assert(seq![w] + rest =~= ws);
        }
    }
}

} // verus!
