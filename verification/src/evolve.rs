use vstd::prelude::*;
use crate::shape::{
    weights_of, same_but_weights, lemma_same_but_weights_refl, lemma_same_but_weights_trans,
    present,
};
use crate::node::{TreeIndex, TreeNode};
use crate::tree::{Tree};
use crate::paths::{walk_visits, occurrences};
use crate::iter::{
    walk_step, walk_step_defined, is_function3, apply3, lemma_walk_step_present, successors,
    lemma_apply3,
};

verus! {

/// Whether the depth-first walk from `stack` ends within `n + 1` steps.
pub open spec fn walk_ends<T>(arena: Seq<Option<TreeNode<T>>>, stack: Seq<Option<TreeIndex>>, n: nat) -> bool
    decreases n,
{
    &&& walk_step_defined(arena, stack)
    &&& match walk_step(arena, stack).0 {
        None => true,
        Some(c) => n > 0 && walk_ends(arena, walk_step(arena, stack).1, (n - 1) as nat),
    }
}

/// How many noise values the walk from `stack` uses: one per weight of each
/// node it meets (a node met twice uses them twice).
pub open spec fn noise_needed<T>(arena: Seq<Option<TreeNode<T>>>, stack: Seq<Option<TreeIndex>>, n: nat) -> nat
    decreases n,
{
    match walk_step(arena, stack).0 {
        None => 0,
        Some(c) => if n == 0 {
            0
        } else {
            arena[c as int].unwrap().weights@.len() + noise_needed(arena, walk_step(arena, stack).1, (n - 1) as nat)
        },
    }
}

/// Weights `w` after weight `k` becomes `mac(w[k], noise[k], rate)`.
pub open spec fn nudged<T, F: Fn(T, T, T) -> T>(w: Seq<T>, mac: F, rate: T, noise: Seq<T>) -> Seq<T> {
    Seq::new(w.len(), |k: int| apply3(mac, w[k], noise[k], rate))
}

/// The weights `ws` after the walk over `arena` from `stack`: each node met,
/// in walk order, has each of its weights `w`, in order, replaced by
/// `mac(w, r, rate)`, with `r` the next unused value of `noise`.
pub open spec fn perturbed<T, F: Fn(T, T, T) -> T>(
    ws: Seq<Option<Seq<T>>>, arena: Seq<Option<TreeNode<T>>>, mac: F, rate: T, noise: Seq<T>,
    stack: Seq<Option<TreeIndex>>, n: nat,
) -> Seq<Option<Seq<T>>>
    decreases n,
{
    match walk_step(arena, stack).0 {
        None => ws,
        Some(c) => if n == 0 {
            ws
        } else {
            let w = ws[c as int].unwrap();
            perturbed(
                ws.update(c as int, Some(nudged(w, mac, rate, noise))),
                arena, mac, rate, noise.skip(w.len() as int), walk_step(arena, stack).1, (n - 1) as nat,
            )
        },
    }
}

pub proof fn lemma_walk_step_links<T>(a: Seq<Option<TreeNode<T>>>, b: Seq<Option<TreeNode<T>>>, stack: Seq<Option<TreeIndex>>)
    requires
        same_but_weights(a, b),
    ensures
        walk_step_defined(a, stack) <==> walk_step_defined(b, stack),
        walk_step(a, stack) == walk_step(b, stack),
    decreases stack.len(),
{
    if stack.len() > 0 {
        let top = stack.last().unwrap() as int;
        if 0 <= top < a.len() {
            assert(a[top] is Some <==> b[top] is Some);
            if a[top] is Some {
                assert(successors(a, top) == successors(b, top));
            }
        }
        lemma_walk_step_links(a, b, stack.drop_last());
    }
}

proof fn lemma_perturbed_fuel<T, F: Fn(T, T, T) -> T>(
    ws: Seq<Option<Seq<T>>>, arena: Seq<Option<TreeNode<T>>>, mac: F, rate: T, noise: Seq<T>,
    stack: Seq<Option<TreeIndex>>, n1: nat, n2: nat,
)
    requires
        walk_ends(arena, stack, n1),
        walk_ends(arena, stack, n2),
    ensures
        perturbed(ws, arena, mac, rate, noise, stack, n1) == perturbed(ws, arena, mac, rate, noise, stack, n2),
        noise_needed(arena, stack, n1) == noise_needed(arena, stack, n2),
    decreases n1,
{
    match walk_step(arena, stack).0 {
        None => {},
        Some(c) => {
            let w = ws[c as int].unwrap();
            lemma_perturbed_fuel(
                ws.update(c as int, Some(nudged(w, mac, rate, noise))), arena, mac, rate,
                noise.skip(w.len() as int), walk_step(arena, stack).1, (n1 - 1) as nat, (n2 - 1) as nat,
            );
        },
    }
}

proof fn lemma_perturbed_untouched<T, F: Fn(T, T, T) -> T>(
    ws: Seq<Option<Seq<T>>>, arena: Seq<Option<TreeNode<T>>>, mac: F, rate: T, noise: Seq<T>,
    stack: Seq<Option<TreeIndex>>, n: nat, c: int,
)
    requires
        walk_ends(arena, stack, n),
        ws.len() == arena.len(),
        0 <= c < ws.len(),
        occurrences(walk_visits(arena, stack, n), c) == 0,
    ensures
        perturbed(ws, arena, mac, rate, noise, stack, n)[c] == ws[c],
    decreases n,
{
    match walk_step(arena, stack).0 {
        None => {},
        Some(d) => {
            if n > 0 {
                lemma_walk_step_present(arena, stack);
                let rest = walk_visits(arena, walk_step(arena, stack).1, (n - 1) as nat);
                assert((seq![d] + rest).drop_first() =~= rest);
                assert((seq![d] + rest)[0] == d);
                let w = ws[d as int].unwrap();
                lemma_perturbed_untouched(
                    ws.update(d as int, Some(nudged(w, mac, rate, noise))), arena, mac, rate,
                    noise.skip(w.len() as int), walk_step(arena, stack).1, (n - 1) as nat, c,
                );
            }
        },
    }
}

/// When the walk meets node `c` first and only once, perturbing replaces
/// each weight `w[k]` of `c` by `mac(w[k], noise[k], rate)`: weight `k`
/// moves from its own old value, by the `k`-th noise value.
pub proof fn law_perturb_nudges_each_weight_from_itself<T, F: Fn(T, T, T) -> T>(
    ws: Seq<Option<Seq<T>>>, arena: Seq<Option<TreeNode<T>>>, mac: F, rate: T, noise: Seq<T>,
    stack: Seq<Option<TreeIndex>>, n: nat, c: TreeIndex,
)
    requires
        walk_ends(arena, stack, n),
        n > 0,
        ws.len() == arena.len(),
        walk_step(arena, stack).0 == Some(c),
        occurrences(walk_visits(arena, stack, n), c as int) == 1,
        ws[c as int] is Some,
    ensures
        ({
            let w = ws[c as int].unwrap();
            let r = perturbed(ws, arena, mac, rate, noise, stack, n)[c as int];
            &&& r is Some
            &&& r.unwrap().len() == w.len()
            &&& forall|k: int| 0 <= k < w.len() ==> #[trigger] r.unwrap()[k] == apply3(mac, w[k], noise[k], rate)
        }),
{
    lemma_walk_step_present(arena, stack);
    let w = ws[c as int].unwrap();
    let s2 = walk_step(arena, stack).1;
    let rest = walk_visits(arena, s2, (n - 1) as nat);
    assert((seq![c] + rest).drop_first() =~= rest);
    assert((seq![c] + rest)[0] == c);
    let ws1 = ws.update(c as int, Some(nudged(w, mac, rate, noise)));
    lemma_perturbed_untouched(ws1, arena, mac, rate, noise.skip(w.len() as int), s2, (n - 1) as nat, c as int);
}

impl<T: Copy> Tree<T> {
    /// How many noise values `perturb_weights` uses, if the depth-first walk
    /// from the roots ends within `fuel + 1` steps and the count fits a `usize`.
    pub fn noise_needed_within(&self, fuel: usize) -> (count: Option<usize>)
        ensures
            match count {
                Some(c) => walk_ends(self@.arena, self@.roots, fuel as nat) && c == noise_needed(self@.arena, self@.roots, fuel as nat),
                None => !walk_ends(self@.arena, self@.roots, fuel as nat)
                    || noise_needed(self@.arena, self@.roots, fuel as nat) > usize::MAX,
            },
    {
        let mut it = self.iter();
        let mut k: usize = fuel;
        let mut total: usize = 0;
        loop
            invariant
                k <= fuel,
                walk_ends(self@.arena, self@.roots, fuel as nat) == walk_ends(self@.arena, it@.crnt, k as nat),
                walk_ends(self@.arena, it@.crnt, k as nat) ==>
                    noise_needed(self@.arena, self@.roots, fuel as nat) == total + noise_needed(self@.arena, it@.crnt, k as nat),
            decreases k,
        {
            if !it.step_ready(self) {
                return None;
            }
            let ghost st = it@.crnt;
            match it.next(self) {
                None => {
                    return Some(total);
                },
                Some(c) => {
                    if k == 0 {
                        return None;
                    }
                    proof {
                        lemma_walk_step_present(self@.arena, st);
                    }
                    let len = self.node_at(c).unwrap().weights.len();
                    if len > usize::MAX - total {
                        return None;
                    }
                    total = total + len;
                    k = k - 1;
                },
            }
        }
    }

    /// Perturbs the weights along the depth-first walk from the roots: each
    /// node met, in walk order, has each of its weights `w`, in order,
    /// replaced by `mac(w, r, rate)`, where `r` is the next unused value of
    /// `noise`. Values and edges stay as they are.
    pub fn perturb_weights<F: Fn(T, T, T) -> T>(&mut self, noise: &[T], rate: T, mac: &F)
        requires
            is_function3(*mac),
            exists|n: nat| walk_ends(old(self)@.arena, old(self)@.roots, n)
                && noise@.len() >= noise_needed(old(self)@.arena, old(self)@.roots, n),
        ensures
            final(self)@.roots == old(self)@.roots,
            same_but_weights(final(self)@.arena, old(self)@.arena),
            forall|n: nat| walk_ends(old(self)@.arena, old(self)@.roots, n) ==> weights_of(final(self)@.arena)
                == perturbed(weights_of(old(self)@.arena), old(self)@.arena, *mac, rate, noise@, old(self)@.roots, n),
    {
        let ghost arena0 = self@.arena;
        let ghost roots0 = self@.roots;
        let ghost fuel = choose|n: nat| walk_ends(arena0, roots0, n) && noise@.len() >= noise_needed(arena0, roots0, n);
        let ghost target = perturbed(weights_of(arena0), arena0, *mac, rate, noise@, roots0, fuel);
        let mut it = self.iter();
        let ghost mut k: nat = fuel;
        let mut pos: usize = 0;
        let noise_len = noise.len();
        proof {
            lemma_same_but_weights_refl(arena0);
            assert(noise@.skip(0) =~= noise@);
        }
        loop
            invariant_except_break
                walk_ends(arena0, it@.crnt, k),
                pos + noise_needed(arena0, it@.crnt, k) <= noise@.len(),
                perturbed(weights_of(self@.arena), arena0, *mac, rate, noise@.skip(pos as int), it@.crnt, k) == target,
            invariant
                is_function3(*mac),
                noise_len == noise@.len(),
                pos <= noise@.len(),
                self@.roots == roots0,
                same_but_weights(self@.arena, arena0),
            ensures
                self@.roots == roots0,
                same_but_weights(self@.arena, arena0),
                weights_of(self@.arena) == target,
            decreases k,
        {
            let ghost st = it@.crnt;
            let ghost ws_b = weights_of(self@.arena);
            proof {
                lemma_walk_step_links(self@.arena, arena0, st);
            }
            match it.next(self) {
                None => {
                    break;
                },
                Some(c) => {
                    proof {
                        lemma_walk_step_present(arena0, st);
                        assert(self@.arena[c as int] is Some);
                    }
                    let len = self.node_at(c).unwrap().weights.len();
                    let ghost w0 = self@.arena[c as int].unwrap().weights@;
                    let ghost nz = noise@.skip(pos as int);
                    proof {
                        assert(ws_b[c as int] == Some(w0));
                        assert(noise_needed(arena0, st, k) == arena0[c as int].unwrap().weights@.len() + noise_needed(arena0, it@.crnt, (k - 1) as nat));
                        assert(w0.len() == arena0[c as int].unwrap().weights@.len());
                        assert(Seq::new(len as nat, |q: int| if q < 0 { apply3(*mac, w0[q], nz[q], rate) } else { w0[q] }) =~= w0);
                        assert(ws_b.update(c as int, Some(w0)) =~= ws_b);
                        assert(ws_b.len() == self@.arena.len());
                    }
                    let mut j: usize = 0;
                    while j < len
                        invariant
                            is_function3(*mac),
                            j <= len,
                            len == w0.len(),
                            noise_len == noise@.len(),
                            pos + len <= noise@.len(),
                            (c as int) < ws_b.len(),
                            nz == noise@.skip(pos as int),
                            present(self@.arena, c as int),
                            self@.arena[c as int].unwrap().weights@
                                == Seq::new(len as nat, |q: int| if q < j { apply3(*mac, w0[q], nz[q], rate) } else { w0[q] }),
                            self@.roots == roots0,
                            same_but_weights(self@.arena, arena0),
                            weights_of(self@.arena) == ws_b.update(c as int, Some(
                                Seq::new(len as nat, |q: int| if q < j { apply3(*mac, w0[q], nz[q], rate) } else { w0[q] }),
                            )),
                        decreases len - j,
                    {
                        let w = self.node_at(c).unwrap().weights[j];
                        let v = mac(w, noise[pos + j], rate);
                        proof {
                            lemma_apply3(*mac, w, noise@[pos + j], rate, v);
                        }
                        let ghost a_b = self@.arena;
                        self.set_weight(c, j, v);
                        proof {
                            lemma_same_but_weights_trans(self@.arena, a_b, arena0);
                            assert(weights_of(self@.arena)[c as int] == Some(self@.arena[c as int].unwrap().weights@));
                            assert(weights_of(a_b)[c as int] == Some(a_b[c as int].unwrap().weights@));
                            assert(a_b[c as int].unwrap().weights@[j as int] == w0[j as int]);
                            assert(nz[j as int] == noise@[pos + j]);
                            assert(Seq::new(len as nat, |q: int| if q < j { apply3(*mac, w0[q], nz[q], rate) } else { w0[q] }).update(j as int, v)
                                =~= Seq::new(len as nat, |q: int| if q < j + 1 { apply3(*mac, w0[q], nz[q], rate) } else { w0[q] }));
                            assert(ws_b.update(c as int, Some(Seq::new(len as nat, |q: int| if q < j { apply3(*mac, w0[q], nz[q], rate) } else { w0[q] }))).update(
                                c as int, Some(Seq::new(len as nat, |q: int| if q < j + 1 { apply3(*mac, w0[q], nz[q], rate) } else { w0[q] })))
                                =~= ws_b.update(c as int, Some(Seq::new(len as nat, |q: int| if q < j + 1 { apply3(*mac, w0[q], nz[q], rate) } else { w0[q] }))));
                        }
                        j = j + 1;
                    }
                    proof {
                        assert(Seq::new(len as nat, |q: int| if q < j { apply3(*mac, w0[q], nz[q], rate) } else { w0[q] })
                            =~= nudged(w0, *mac, rate, nz));
                        assert(nz.skip(len as int) =~= noise@.skip(pos + len));
                    }
                    pos = pos + len;
                    proof {
                        k = (k - 1) as nat;
                    }
                },
            }
        }
        proof {
            assert forall|n: nat| walk_ends(arena0, roots0, n) implies weights_of(self@.arena)
                == perturbed(weights_of(arena0), arena0, *mac, rate, noise@, roots0, n) by {
                lemma_perturbed_fuel(weights_of(arena0), arena0, *mac, rate, noise@, roots0, fuel, n);
            }
        }
    }
}

} // verus!
