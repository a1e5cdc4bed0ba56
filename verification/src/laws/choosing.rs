//! What the commands promise to work on.

use vstd::prelude::*;

use crate::cli;
use crate::cli::LandArgsView;
use crate::commands;
use crate::config::ConfigView;
use crate::land;
use crate::land::LandOptionsView;
use crate::laws::landing;
use crate::list;
use crate::session::SessionView;
use crate::stack::{Dep, StackView};
use crate::tape;
use crate::tape::{ReplyView, RequestView, TapeView};
use crate::upgrade;

verus! {

/// The layer sits on the trunk and has a pull request.
pub open spec fn ready(s: StackView, i: int) -> bool {
    s.layers[i].dep == Dep::Main && s.layers[i].pr is Some
}

proof fn lemma_layer_with(s: StackView, number: u64, i: int)
    requires
        0 <= i <= s.layers.len() <= usize::MAX,
    ensures
        match cli::layer_with(s, number, i) {
            Some(k) => i <= k < s.layers.len() && s.layers[k as int].pr == Some(number),
            None => forall|k: int|
                i <= k < s.layers.len() ==> (#[trigger] s.layers[k]).pr != Some(number),
        },
    decreases s.layers.len() - i,
{
    if i < s.layers.len() {
        lemma_layer_with(s, number, i + 1);
    }
}

proof fn lemma_landable_from(s: StackView, i: int)
    requires
        0 <= i <= s.layers.len() <= usize::MAX,
    ensures
        match land::landable_from(s, i) {
            Some(k) => i <= k < s.layers.len() && ready(s, k as int) && forall|m: int|
                i <= m < k ==> !#[trigger] ready(s, m),
            None => forall|m: int| i <= m < s.layers.len() ==> !#[trigger] ready(s, m),
        },
    decreases s.layers.len() - i,
{
    if i < s.layers.len() {
        lemma_landable_from(s, i + 1);
    }
}

proof fn lemma_submitted(s: StackView, n: int)
    requires
        0 <= n <= s.layers.len() <= usize::MAX,
    ensures
        forall|k: int|
            0 <= k < n && (#[trigger] s.layers[k]).pr is Some ==> cli::submitted(s, n).contains(
                k as usize,
            ),
        forall|x: int|
            0 <= x < cli::submitted(s, n).len() ==> (#[trigger] cli::submitted(s, n)[x]) < n
                && s.layers[cli::submitted(s, n)[x] as int].pr is Some,
    decreases n,
{
    if n > 0 {
        lemma_submitted(s, n - 1);
        let before = cli::submitted(s, n - 1);
        let now = cli::submitted(s, n);
        assert forall|k: int| 0 <= k < n && (#[trigger] s.layers[k]).pr is Some implies now.contains(
            k as usize,
        ) by {
            if k < n - 1 {
                assert(before.contains(k as usize));
                let x = choose|x: int| 0 <= x < before.len() && before[x] == k as usize;
                assert(now[x] == k as usize);
            } else {
                assert(now[before.len() as int] == k as usize);
            }
        }
    }
}

proof fn lemma_roots(s: StackView, n: int)
    requires
        0 <= n <= s.layers.len() <= usize::MAX,
    ensures
        forall|k: int|
            0 <= k < n && #[trigger] ready(s, k) ==> cli::landable_roots(s, n).contains(
                k as usize,
            ),
        forall|x: int|
            0 <= x < cli::landable_roots(s, n).len() ==> (#[trigger] cli::landable_roots(s, n)[x])
                < n && ready(s, cli::landable_roots(s, n)[x] as int),
    decreases n,
{
    if n > 0 {
        lemma_roots(s, n - 1);
        let before = cli::landable_roots(s, n - 1);
        let now = cli::landable_roots(s, n);
        assert forall|k: int| 0 <= k < n && #[trigger] ready(s, k) implies now.contains(
            k as usize,
        ) by {
            if k < n - 1 {
                assert(before.contains(k as usize));
                let x = choose|x: int| 0 <= x < before.len() && before[x] == k as usize;
                assert(now[x] == k as usize);
            } else {
                assert(now[before.len() as int] == k as usize);
            }
        }
    }
}

/// `land` works on the layer that the user means. With `--cherry-pick` that is the `HEAD`,
/// which must sit on the trunk and have a pull request; otherwise the layer of the pull
/// request that is named, if it is in the stack; otherwise, at the bottom, the lowest one
/// that is ready. Without any of these it is the only layer with a pull request, or the
/// `HEAD` if no other one is ready; where there is a choice, nothing is landed.
pub proof fn law_land_works_on_what_is_meant(s: StackView, args: LandArgsView, trunk: Seq<char>)
    requires
        s.layers.len() <= usize::MAX,
    ensures
        ({
            let n = s.layers.len() as int;
            let r = cli::land_target(s, args, trunk);
            let named = if args.pr is Some {
                args.pr
            } else {
                args.number
            };
            &&& r matches Ok(i) ==> i < n
            &&& n == 0 ==> r is Err
            &&& n > 0 && args.cherry_pick ==> {
                &&& r is Ok <==> ready(s, n - 1)
                &&& r matches Ok(i) ==> i == n - 1
            }
            &&& n > 0 && !args.cherry_pick && named is Some ==> {
                &&& r is Ok <==> exists|k: int|
                    0 <= k < n && (#[trigger] s.layers[k]).pr == named
                &&& r matches Ok(i) ==> s.layers[i as int].pr == named
            }
            &&& n > 0 && !args.cherry_pick && named is None && (args.bottom || args.all || n == 1)
                ==> {
                &&& r is Ok <==> exists|k: int| 0 <= k < n && #[trigger] ready(s, k)
                &&& r matches Ok(i) ==> ready(s, i as int) && forall|m: int|
                    0 <= m < i ==> !#[trigger] ready(s, m)
            }
            &&& n > 1 && !args.cherry_pick && named is None && !args.bottom && !args.all ==> (
            r matches Ok(i) ==> ready(s, i as int) && ((forall|k: int|
                0 <= k < n && k != i ==> (#[trigger] s.layers[k]).pr is None) || (i == n - 1
                && forall|k: int| 0 <= k < n && k != i ==> !#[trigger] ready(s, k))))
        }),
{
    let n = s.layers.len() as int;
    let named = cli::named_pr(args);
    if n > 0 && !args.cherry_pick {
        if named is Some {
            lemma_layer_with(s, named->0, 0);
        } else if args.bottom || args.all || n == 1 {
            lemma_landable_from(s, 0);
        } else {
            lemma_submitted(s, n);
            lemma_roots(s, n);
            let open = cli::submitted(s, n);
            let roots = cli::landable_roots(s, n);
            if open.len() == 1 && s.layers[open[0] as int].dep == Dep::Main {
                assert forall|k: int| 0 <= k < n && k != open[0] implies (
                #[trigger] s.layers[k]).pr is None by {
                    if s.layers[k].pr is Some {
                        assert(open.contains(k as usize));
                    }
                }
            } else if roots.len() == 1 && roots[0] == n - 1 {
                assert forall|k: int| 0 <= k < n && k != roots[0] implies !#[trigger] ready(
                    s,
                    k,
                ) by {
                    if ready(s, k) {
                        assert(roots.contains(k as usize));
                    }
                }
            }
        }
    }
}

/// What `land` merges, where it does not land everything, is the pull request of the layer
/// that is meant, with the message that the user gives if there is one.
pub proof fn law_land_merges_what_is_meant(
    t: TapeView,
    c: ConfigView,
    s: StackView,
    args: LandArgsView,
    k: int,
)
    requires
        !args.all || args.cherry_pick || args.pr is Some || args.number is Some,
        t.asked.len() <= k < commands::landed(t, c, s, args).0.asked.len(),
    ensures
        commands::landed(t, c, s, args).0.asked[k] matches RequestView::MergePullRequest {
            number,
            merge,
        } ==> {
            &&& cli::land_target(s, args, c.trunk) is Ok
            &&& s.layers[cli::land_target(s, args, c.trunk)->Ok_0 as int].pr == Some(number)
            &&& args.message matches Some(message) ==> merge.message == message
        },
{
    broadcast use {
        tape::lemma_only_ask,
        upgrade::lemma_legacy_rejected_only,
        land::lemma_landing_checked_only,
    };

    let target = cli::land_target(s, args, c.trunk);
    if target is Ok {
        let index = target->Ok_0;
        let opts = LandOptionsView { message: args.message, keep_local: false };
        let layer = s.layers[index as int];
        let allowed = |q: RequestView|
            q matches RequestView::MergePullRequest { number, merge } ==> layer.pr == Some(number)
                && (args.message matches Some(message) ==> merge.message == message);
        assert(tape::may_look(allowed));
        tape::lemma_only_start(t, allowed);
        let (to, r) = land::layer_landed(t, c, s, index, opts);
        assert(commands::landed(t, c, s, args).0 == to);
        let (t1, r1) = tape::ask_unit(t, RequestView::CheckClean);
        assert(tape::only(t, t1, allowed));
        let (t2, r2) = upgrade::legacy_rejected(t1, c, s);
        assert(tape::only(t, t2, allowed));
        let (t3, pr) = land::landing_checked(t2, c, s, index as int);
        assert(tape::only(t, t3, allowed));
        if r1 is Ok && r2 is Ok && pr is Ok {
            landing::lemma_landing_only(
                t,
                t3,
                c,
                s,
                index,
                layer.pr->0,
                pr->Ok_0,
                opts,
                allowed,
            );
        }
        assert(tape::only(t, to, allowed));
        assert(allowed(to.asked[k]));
    }
}

/// `list` asks for the open pull requests of the user, or of everybody with `--all`, and
/// shows what the forge lists.
pub proof fn law_list_shows_what_is_asked_for(t: TapeView, se: SessionView, all: bool)
    ensures
        ({
            let to = commands::list_run(t, se, all).0;
            let n = t.asked.len() as int;
            &&& to.asked.len() > n
            &&& to.asked[n] is ListPullRequests
            &&& to.asked[n]->ListPullRequests_author is None <==> all
            &&& !all ==> to.asked[n]->ListPullRequests_author == Some(se.config.login)
            &&& forall|k: int|
                n < k < to.asked.len() ==> t.replies[n] is Listed && #[trigger] to.asked[k] == (
                RequestView::Print {
                    text: list::listing(
                        list::stacks_of(t.replies[n]->Listed_0, se.config.trunk),
                        se.terminal.colors,
                    ),
                })
        }),
{
    let n = t.asked.len() as int;
    let q = RequestView::ListPullRequests {
        author: if all {
            None
        } else {
            Some(se.config.login)
        },
    };
    let (t1, prs) = tape::ask_listed(t, q);
    let to = commands::list_run(t, se, all).0;
    assert(t1.asked[n] == q);
    assert(to.asked[n] == q);
    if prs is Ok {
        assert(t.replies[n] == ReplyView::Listed(prs->Ok_0));
    }
}

} // verus!
