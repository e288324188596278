use vstd::prelude::*;

verus! {

/// A terminal's dimensions.
#[derive(Debug, Clone, Copy, PartialEq, Eq, Structural)]
pub struct TerminalSize {
    pub rows: u16,
    pub cols: u16,
}

/// Keeps a pseudo-terminal's size in step with the controlling terminal
/// during the relay: the size read at each tick is pushed only when it
/// differs from the last one pushed, and always at the first tick.
pub struct WindowSizeSync {
    pub applied: Option<TerminalSize>,
}

/// The update that a tick sends, given what was last pushed.
pub open spec fn tick_update(applied: Option<TerminalSize>, current: TerminalSize) -> Option<
    TerminalSize,
> {
    if applied == Some(current) {
        None
    } else {
        Some(current)
    }
}

/// The updates sent over a run of ticks that read `sizes`.
pub open spec fn updates(applied: Option<TerminalSize>, sizes: Seq<TerminalSize>) -> Seq<
    TerminalSize,
>
    decreases sizes.len(),
{
    if sizes.len() == 0 {
        Seq::empty()
    } else {
        let head = match tick_update(applied, sizes[0]) {
            Some(u) => seq![u],
            None => Seq::empty(),
        };
        head + updates(Some(sizes[0]), sizes.skip(1))
    }
}

impl WindowSizeSync {
    /// A tracker that has pushed nothing yet.
    pub fn new() -> (r: WindowSizeSync)
        ensures
            r.applied is None,
    {
        WindowSizeSync { applied: None }
    }

    /// A tick that read `current` from the controlling terminal: the size to
    /// push into the pseudo-terminal, if any.
    pub fn tick(&mut self, current: TerminalSize) -> (r: Option<TerminalSize>)
        ensures
            r == tick_update(old(self).applied, current),
            final(self).applied == Some(current),
    {
        let r = match self.applied {
            Some(last) => {
                if last == current {
                    None
                } else {
                    Some(current)
                }
            },
            None => Some(current),
        };
        self.applied = Some(current);
        r
    }
}

proof fn lemma_steady(s: TerminalSize, sizes: Seq<TerminalSize>)
    requires
        forall|k: int| 0 <= k < sizes.len() ==> sizes[k] == s,
    ensures
        updates(Some(s), sizes) == Seq::<TerminalSize>::empty(),
    decreases sizes.len(),
{
    if sizes.len() > 0 {
        lemma_steady(s, sizes.skip(1));
        assert(updates(Some(s), sizes) =~= Seq::<TerminalSize>::empty());
    }
}

/// While the size stays `s`, ticks push nothing; when it changes to `t`
/// and stays there, exactly one update, to `t`, is pushed.
pub proof fn law_one_update_per_change(s: TerminalSize, t: TerminalSize, before: nat, after: nat)
    requires
        s != t,
        after >= 1,
    ensures
        updates(Some(s), Seq::new(before, |k: int| s)) == Seq::<TerminalSize>::empty(),
        updates(Some(s), Seq::new(before, |k: int| s) + Seq::new(after, |k: int| t)) == seq![t],
    decreases before,
{
    lemma_steady(s, Seq::new(before, |k: int| s));
    let ts = Seq::new(after, |k: int| t);
    lemma_steady(t, ts.skip(1));
    assert(updates(Some(s), ts) =~= seq![t]);
    if before > 0 {
        let all = Seq::new(before, |k: int| s) + ts;
        assert(all.skip(1) =~= Seq::new((before - 1) as nat, |k: int| s) + ts);
        law_one_update_per_change(s, t, (before - 1) as nat, after);
    } else {
        assert(Seq::new(before, |k: int| s) + ts =~= ts);
    }
}

/// The first tick always pushes the size it read.
pub proof fn law_first_tick_pushes(sizes: Seq<TerminalSize>)
    requires
        sizes.len() > 0,
    ensures
        updates(None, sizes).len() > 0,
        updates(None, sizes)[0] == sizes[0],
{
}

} // verus!
