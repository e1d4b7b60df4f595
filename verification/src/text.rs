//! Splitting rendered diagnostic text into lines.

use vstd::prelude::*;

verus! {

/// The pieces of `s` between newline characters, in order. Splitting on a
/// separator always yields one more piece than there are separators, so the
/// result is never empty: the empty text splits into one empty line.
pub open spec fn split_nl(s: Seq<char>) -> Seq<Seq<char>>
    decreases s.len(),
{
    if s.len() == 0 {
        seq![Seq::<char>::empty()]
    } else if s[0] == '\n' {
        seq![Seq::<char>::empty()] + split_nl(s.skip(1))
    } else {
        let rest = split_nl(s.skip(1));
        seq![seq![s[0]] + rest[0]] + rest.skip(1)
    }
}

/// Splitting any text yields at least one line.
pub proof fn lemma_split_nl_nonempty(s: Seq<char>)
    ensures
        split_nl(s).len() >= 1,
    decreases s.len(),
{
    if s.len() == 0 {
    } else {
        lemma_split_nl_nonempty(s.skip(1));
    }
}

/// Unfolds `split_nl(t)` when the first newline of `t` sits at index `p`:
/// the text up to the newline is the first line, and the rest splits on its
/// own.
proof fn lemma_split_step(t: Seq<char>, p: int)
    requires
        0 <= p < t.len(),
        t[p] == '\n',
        forall|j: int| 0 <= j < p ==> t[j] != '\n',
    ensures
        split_nl(t) == seq![t.take(p)] + split_nl(t.skip(p + 1)),
    decreases p,
{
    if p == 0 {
        assert(t.take(0) =~= Seq::<char>::empty());
    } else {
        let u = t.skip(1);
        assert(forall|j: int| 0 <= j < p - 1 ==> u[j] != '\n');
        assert(u[p - 1] == '\n');
        lemma_split_step(u, p - 1);
        lemma_split_nl_nonempty(u.skip(p));
        let rest = split_nl(u);
        assert(rest == seq![u.take(p - 1)] + split_nl(u.skip(p)));
        assert(rest[0] == u.take(p - 1));
        assert(rest.skip(1) =~= split_nl(u.skip(p))) by {
            lemma_split_nl_nonempty(u.skip(p));
        }
        assert(u.skip(p) =~= t.skip(p + 1));
        assert(seq![t[0]] + u.take(p - 1) =~= t.take(p));
        assert(split_nl(t) == seq![seq![t[0]] + rest[0]] + rest.skip(1));
        assert(seq![seq![t[0]] + rest[0]] + rest.skip(1) =~= seq![t.take(p)] + split_nl(
            t.skip(p + 1),
        ));
    }
}

/// A text with no newline splits into itself alone.
proof fn lemma_split_whole(t: Seq<char>)
    requires
        forall|j: int| 0 <= j < t.len() ==> t[j] != '\n',
    ensures
        split_nl(t) == seq![t],
    decreases t.len(),
{
    if t.len() == 0 {
        assert(t =~= Seq::<char>::empty());
    } else {
        let u = t.skip(1);
        lemma_split_whole(u);
        let rest = split_nl(u);
        assert(rest == seq![u]);
        assert(seq![t[0]] + u =~= t);
        assert(rest.skip(1) =~= Seq::<Seq<char>>::empty());
        assert(seq![seq![t[0]] + rest[0]] + rest.skip(1) =~= seq![t]);
    }
}

/// Splits rendered diagnostic text into its lines, one piece between each
/// pair of newline separators; the result always holds at least one element.
pub fn split_lines(s: &str) -> (r: Vec<String>)
    ensures
        r.deep_view() == split_nl(s@),
        r@.len() >= 1,
{
    let ghost whole: Seq<char> = s@;
    let mut r: Vec<String> = Vec::new();
    let mut line = String::new();
    let ghost mut b: int = 0;
    let n = s.unicode_len();
    let mut i: usize = 0;
    proof {
        assert(whole.skip(0) =~= whole);
        assert(r.deep_view() =~= Seq::<Seq<char>>::empty());
        assert(Seq::<Seq<char>>::empty() + split_nl(whole) =~= split_nl(whole));
    }
    while i < n
        invariant
            n == whole.len(),
            s@ == whole,
            0 <= b <= i <= n,
            line@ == whole.subrange(b, i as int),
            forall|j: int| b <= j < i ==> whole[j] != '\n',
            split_nl(whole) == r.deep_view() + split_nl(whole.skip(b)),
        decreases n - i,
    {
        let c = s.get_char(i);
        if c == '\n' {
            let ghost dv0 = r.deep_view();
            let ghost done: Seq<char> = line@;
            proof {
                let t = whole.skip(b);
                assert(t[i - b] == '\n');
                assert(forall|j: int| 0 <= j < i - b ==> t[j] != '\n');
                lemma_split_step(t, i - b);
                assert(t.take(i - b) =~= done);
                assert(t.skip(i - b + 1) =~= whole.skip(i as int + 1));
            }
            r.push(line);
            line = String::new();
            proof {
                assert(r.deep_view() =~= dv0.push(done));
                b = i as int + 1;
                assert(dv0 + (seq![done] + split_nl(whole.skip(b))) =~= dv0.push(done)
                    + split_nl(whole.skip(b)));
                assert(line@ =~= whole.subrange(b, i as int + 1));
            }
        } else {
            crate::unifier::push_char(&mut line, c);
            proof {
                assert(line@ =~= whole.subrange(b, i + 1));
            }
        }
        i = i + 1;
    }
    let ghost dv0 = r.deep_view();
    proof {
        let t = whole.skip(b);
        assert(forall|j: int| 0 <= j < t.len() ==> t[j] != '\n');
        lemma_split_whole(t);
        assert(line@ =~= t);
    }
    r.push(line);
    proof {
        assert(r.deep_view() =~= dv0.push(line@));
        assert(dv0 + seq![line@] =~= dv0.push(line@));
    }
    r
}

} // verus!
