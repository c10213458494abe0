//! Working a lease, as a sequence rather than four unrelated verbs.
//!
//! A prompt carries what a tool description cannot: an order, and the reason
//! for it. Every step after the claim carries the generation the claim handed
//! back. The host serves these texts; here they are put together from what
//! the caller passed, with the seat's identity and the default lease standing
//! in for what was left out.

use vstd::prelude::*;
use crate::graph::DEFAULT_LEASE_SECS;
use crate::text::{dec, is_white, push_dec, push_str};

verus! {

/// Who is picking work up, and for how long.
pub struct TakeArgs {
    /// The actor to claim as. Defaults to the seat's own identity.
    pub actor: Option<String>,
    /// How long a claim should stand before it can be taken back, in seconds.
    pub lease_seconds: Option<u64>,
}

/// How quiet a held node has to be before it is worth taking back.
pub struct SweepArgs {
    /// Seconds of silence after which a claim is treated as abandoned.
    pub lease_seconds: Option<u64>,
}

/// Nothing but white space (or nothing at all).
pub open spec fn blank(s: Seq<char>) -> bool {
    forall|i: int| 0 <= i < s.len() ==> is_white(#[trigger] s[i])
}

/// Who the prompt says is claiming: the actor named, unless it is blank.
pub open spec fn claimant(actor: Option<Seq<char>>) -> Seq<char> {
    match actor {
        Some(a) => if blank(a) { "the seat's own identity"@ } else { "actor "@ + a },
        None => "the seat's own identity"@,
    }
}

/// The lease a prompt speaks of: the one given, or the default.
pub open spec fn lease_or_default(lease: Option<u64>) -> u64 {
    match lease {
        Some(l) => l,
        None => DEFAULT_LEASE_SECS,
    }
}

/// The text of the prompt that takes the next node.
pub open spec fn take_text(who: Seq<char>, lease: u64) -> Seq<char> {
    "Take the next claimable node as "@ + who + ", on a "@ + dec(lease as nat) + " second lease.\n\n`claimdag_ready` first. Ready is unblocked and unheld, which is not the\nsame as open: a node somebody else holds is not yours to start, and a\nnode whose inputs are unfinished is work that will be redone.\n\n`claimdag_claim` hands back a generation. That number is the token for\neverything after it. Carry it. An agent that drops it between calls is an\nagent that will finish work it no longer holds.\n\nWhile working, `claimdag_renew` says the holder is alive. A renewal does\nnot change the generation, because it is not a change of ownership.\n\n`claimdag_complete` takes the generation back. If the lease was reclaimed\nwhile you were away, the finish is refused rather than overwriting\nsomebody else's claim, and that refusal is information: the work was\ntaken up elsewhere and what you have may be a duplicate.\n\nThis graph is for one session. What has to survive it belongs in the\ntracker, cited to what it produced."@
}

/// The text of the prompt that sweeps stale claims.
pub open spec fn sweep_text(lease: u64) -> Seq<char> {
    "Take back the claims that have been quiet longer than "@ + dec(lease as nat) + " seconds.\n\n`claimdag_list` shows who holds what and how long each held node has\nbeen quiet. Read that before reclaiming: quiet is not the same as\nabandoned, and a node held by somebody still renewing is not stale no\nmatter how long the work is taking.\n\n`claimdag_reclaim` with the lease takes back what is past it. It moves\nthe generation, which is what makes the old holder's finish fail rather\nthan land silently on work somebody else now has.\n\nReport what was reclaimed and who held it. A reclaim is visible to the\nseat that lost it only as a refused completion, so saying so here is the\nonly warning anyone gets."@
}

/// The view of an optional string.
pub open spec fn opt_text(o: Option<String>) -> Option<Seq<char>> {
    match o {
        Some(s) => Some(s@),
        None => None,
    }
}

fn is_blank(s: &str) -> (r: bool)
    ensures
        r == blank(s@),
{
    let cs = crate::text::chars_of(s);
    let mut i: usize = 0;
    while i < cs.len()
        invariant
            cs@ == s@,
            i <= cs@.len(),
            forall|j: int| 0 <= j < i ==> is_white(#[trigger] s@[j]),
        decreases cs@.len() - i,
    {
        if !crate::text::white(cs[i]) {
            return false;
        }
        i = i + 1;
    }
    true
}

/// Take the next claimable node and work it under a lease, carrying the
/// generation from the claim through to the finish.
pub fn take_the_next_node_prompt(args: &TakeArgs) -> (r: String)
    ensures
        r@ == take_text(claimant(opt_text(args.actor)), lease_or_default(args.lease_seconds)),
{
    let mut s = String::new();
    push_str(&mut s, "Take the next claimable node as ");
    match &args.actor {
        Some(a) if !is_blank(a.as_str()) => {
            push_str(&mut s, "actor ");
            push_str(&mut s, a.as_str());
        },
        _ => {
            push_str(&mut s, "the seat's own identity");
        },
    }
    push_str(&mut s, ", on a ");
    let lease = match args.lease_seconds {
        Some(l) => l,
        None => DEFAULT_LEASE_SECS,
    };
    push_dec(&mut s, lease);
    push_str(&mut s, " second lease.\n\n`claimdag_ready` first. Ready is unblocked and unheld, which is not the\nsame as open: a node somebody else holds is not yours to start, and a\nnode whose inputs are unfinished is work that will be redone.\n\n`claimdag_claim` hands back a generation. That number is the token for\neverything after it. Carry it. An agent that drops it between calls is an\nagent that will finish work it no longer holds.\n\nWhile working, `claimdag_renew` says the holder is alive. A renewal does\nnot change the generation, because it is not a change of ownership.\n\n`claimdag_complete` takes the generation back. If the lease was reclaimed\nwhile you were away, the finish is refused rather than overwriting\nsomebody else's claim, and that refusal is information: the work was\ntaken up elsewhere and what you have may be a duplicate.\n\nThis graph is for one session. What has to survive it belongs in the\ntracker, cited to what it produced.");
    s
}

/// Take back the claims that went quiet, and say what was taken and from
/// whom.
pub fn sweep_stale_claims_prompt(args: &SweepArgs) -> (r: String)
    ensures
        r@ == sweep_text(lease_or_default(args.lease_seconds)),
{
    let mut s = String::new();
    push_str(&mut s, "Take back the claims that have been quiet longer than ");
    let lease = match args.lease_seconds {
        Some(l) => l,
        None => DEFAULT_LEASE_SECS,
    };
    push_dec(&mut s, lease);
    push_str(&mut s, " seconds.\n\n`claimdag_list` shows who holds what and how long each held node has\nbeen quiet. Read that before reclaiming: quiet is not the same as\nabandoned, and a node held by somebody still renewing is not stale no\nmatter how long the work is taking.\n\n`claimdag_reclaim` with the lease takes back what is past it. It moves\nthe generation, which is what makes the old holder's finish fail rather\nthan land silently on work somebody else now has.\n\nReport what was reclaimed and who held it. A reclaim is visible to the\nseat that lost it only as a refused completion, so saying so here is the\nonly warning anyone gets.");
    s
}

} // verus!
