//! The retained window of blocks, and what is said of it as a whole.
use vstd::prelude::*;

use std::collections::VecDeque;

use vstd::hash_map::StringHashMap;

use crate::blocks::{Core, Evm};
use crate::text::{decimal, decimal_string};
use crate::validators::Names;

verus! {

/// The most blocks of a chain that are retained.
pub const CAP: usize = 90;

/// News from the endpoints.
pub enum Msg {
    Evm(Evm),
    Core(Core),
    Validators(Names),
    Trouble(String),
}

/// What is retained: the blocks of each chain, newest first; the last error since a block
/// came; the names of the validators.
pub struct Board {
    pub evm: VecDeque<Evm>,
    pub core: VecDeque<Core>,
    pub err: String,
    pub names: Names,
}

/// A window of at most `CAP` items after `x` is put in front: the last makes room.
pub open spec fn fronted<T>(s: Seq<T>, x: T) -> Seq<T> {
    let t = seq![x] + s;
    if t.len() > CAP {
        t.take(CAP as int)
    } else {
        t
    }
}

fn put_front<T>(w: &mut VecDeque<T>, x: T)
    ensures
        final(w)@ == fronted(old(w)@, x),
{
    w.push_front(x);
    w.truncate(CAP);
    assert(w@ =~= fronted(old(w)@, x));
}

impl Board {
    /// An empty board.
    pub fn new() -> (r: Board)
        ensures
            r.evm@ == Seq::<Evm>::empty(),
            r.core@ == Seq::<Core>::empty(),
            r.err@ == Seq::<char>::empty(),
            r.names@ == Map::<Seq<char>, Seq<char>>::empty(),
    {
        let r = Board {
            evm: VecDeque::new(),
            core: VecDeque::new(),
            err: String::new(),
            names: Names { by_address: StringHashMap::new() },
        };
        assert(r.names@ =~= Map::<Seq<char>, Seq<char>>::empty());
        r
    }

    /// Takes in a message. A block goes to the front of its window and clears the error; a
    /// core block of the height that is in front already is not put in again.
    pub fn apply(&mut self, m: Msg)
        ensures
            match m {
                Msg::Evm(b) => final(self).evm@ == fronted(old(self).evm@, b)
                    && final(self).core == old(self).core && final(self).err@ == Seq::<
                    char,
                >::empty() && final(self).names == old(self).names,
                Msg::Core(b) => final(self).core@ == (if old(self).core@.len() > 0
                    && old(self).core@[0].height == b.height {
                    old(self).core@
                } else {
                    fronted(old(self).core@, b)
                }) && final(self).evm == old(self).evm && final(self).err@ == Seq::<char>::empty()
                    && final(self).names == old(self).names,
                Msg::Validators(v) => final(self).names == v && final(self).evm == old(self).evm
                    && final(self).core == old(self).core && final(self).err == old(self).err,
                Msg::Trouble(e) => final(self).err == e && final(self).evm == old(self).evm
                    && final(self).core == old(self).core && final(self).names == old(self).names,
            },
    {
        match m {
            Msg::Evm(b) => {
                put_front(&mut self.evm, b);
                self.err = String::new();
            },
            Msg::Core(b) => {
                let known: bool = self.core.len() > 0 && self.core[0].height == b.height;
                if !known {
                    put_front(&mut self.core, b);
                }
                self.err = String::new();
            },
            Msg::Validators(v) => {
                self.names = v;
            },
            Msg::Trouble(e) => {
                self.err = e;
            },
        }
    }
}

// ---- times between blocks ----

/// The time since the block before.
#[derive(Clone, Copy, Debug, PartialEq, Eq, Structural)]
pub enum Dt {
    /// No earlier block is known.
    Unknown,
    /// Blocks were skipped in between.
    Gap,
    /// That many milliseconds.
    Ms(u64),
}

/// `a - b`, or zero where that is negative.
pub open spec fn less(a: u64, b: u64) -> u64 {
    if a >= b {
        (a - b) as u64
    } else {
        0
    }
}

/// The time between a core block and the one listed behind it: real within a run of
/// consecutive blocks, a gap across a skip.
pub fn core_dt(b: &Core, behind: Option<&Core>) -> (r: Dt)
    ensures
        r == (match behind {
            None => Dt::Unknown,
            Some(p) => if p.height + 1 == b.height {
                Dt::Ms(less(b.ms, p.ms))
            } else {
                Dt::Gap
            },
        }),
{
    match behind {
        None => Dt::Unknown,
        Some(p) => if b.height > 0 && p.height == b.height - 1 {
            Dt::Ms(b.ms.saturating_sub(p.ms))
        } else {
            Dt::Gap
        },
    }
}

/// How the time between blocks is shown.
pub open spec fn dt_text_of(dt: Dt) -> Seq<char> {
    match dt {
        Dt::Unknown => "-"@,
        Dt::Gap => "gap"@,
        Dt::Ms(n) => decimal(n as nat),
    }
}

/// How the time between blocks is shown.
pub fn dt_text(dt: Dt) -> (r: String)
    ensures
        r@ == dt_text_of(dt),
{
    match dt {
        Dt::Unknown => "-".to_owned(),
        Dt::Gap => "gap".to_owned(),
        Dt::Ms(n) => decimal_string(n),
    }
}

/// How the time between an EVM block and the one listed behind it is shown, in seconds.
pub fn evm_dt_text(b: &Evm, behind: Option<&Evm>) -> (r: String)
    ensures
        r@ == (match behind {
            None => "-"@,
            Some(p) => decimal(less(b.ts, p.ts) as nat),
        }),
{
    match behind {
        None => "-".to_owned(),
        Some(p) => decimal_string(b.ts.saturating_sub(p.ts)),
    }
}

// ---- laws ----

/// A window keeps its bound, shows the newest block first, and keeps the others in order.
pub proof fn law_windows_show_the_newest_first<T>(w: Seq<T>, x: T)
    requires
        w.len() <= CAP,
    ensures
        fronted(w, x).len() <= CAP,
        fronted(w, x)[0] == x,
        forall|i: int| 1 <= i < fronted(w, x).len() ==> #[trigger] fronted(w, x)[i] == w[i - 1],
        w.len() < CAP ==> fronted(w, x).len() == w.len() + 1,
{
}

/// A window holds the ninety newest blocks, newest first: what ninety or fewer hold stays behind
/// the new one, and of ninety the last is dropped.
pub proof fn law_windows_hold_ninety_blocks(b: &mut Board, m: Msg)
    requires
        call_ensures(Board::apply, (b, m), ()),
        old(b).evm@.len() <= 90,
        old(b).core@.len() <= 90,
    ensures
        final(b).evm@.len() <= 90,
        final(b).core@.len() <= 90,
        m matches Msg::Evm(x) ==> final(b).evm@ == seq![x] + (if old(b).evm@.len() < 90 {
            old(b).evm@
        } else {
            old(b).evm@.take(89)
        }),
        m matches Msg::Core(x) ==> final(b).core@ == (if old(b).core@.len() > 0
            && old(b).core@[0].height == x.height {
            old(b).core@
        } else {
            seq![x] + (if old(b).core@.len() < 90 {
                old(b).core@
            } else {
                old(b).core@.take(89)
            })
        }),
{
    match m {
        Msg::Evm(x) => {
            assert((seq![x] + old(b).evm@).take(90) =~= seq![x] + old(b).evm@.take(89)
                || old(b).evm@.len() < 90);
        },
        Msg::Core(x) => {
            assert((seq![x] + old(b).core@).take(90) =~= seq![x] + old(b).core@.take(89)
                || old(b).core@.len() < 90);
        },
        _ => {},
    }
}

/// News change what they are about and nothing else: a block the window of its chain, and it
/// clears the error; the names the names; trouble the error.
pub proof fn law_news_change_what_they_are_about(b: &mut Board, m: Msg)
    requires
        call_ensures(Board::apply, (b, m), ()),
    ensures
        !(m is Evm) ==> final(b).evm == old(b).evm,
        !(m is Core) ==> final(b).core == old(b).core,
        !(m is Validators) ==> final(b).names == old(b).names,
        m matches Msg::Validators(v) ==> final(b).names == v && final(b).err == old(b).err,
        m is Evm || m is Core ==> final(b).err@.len() == 0,
        m matches Msg::Trouble(e) ==> final(b).err == e,
{
}

/// The time of a core block is told where the one listed behind it is the block before: the
/// milliseconds between them, zero where the clock ran backwards. Else it is a gap, and unknown
/// where nothing is listed behind it.
pub proof fn law_core_times_are_told_within_a_run(b: Core, p: Core, r: Dt, alone: Dt)
    requires
        call_ensures(core_dt, (&b, Some(&p)), r),
        call_ensures(core_dt, (&b, None), alone),
    ensures
        alone == Dt::Unknown,
        b.height == p.height + 1 && b.ms >= p.ms ==> r == Dt::Ms((b.ms - p.ms) as u64),
        b.height == p.height + 1 && b.ms < p.ms ==> r == Dt::Ms(0),
        b.height != p.height + 1 ==> r == Dt::Gap,
{
}

/// How times are shown: a dash where they are unknown, `gap` across a gap, and else the number.
pub proof fn law_times_are_shown(dt: Dt, r: String)
    requires
        call_ensures(dt_text, (dt,), r),
    ensures
        dt == Dt::Unknown ==> r@ == seq!['-'],
        dt == Dt::Gap ==> r@ == seq!['g', 'a', 'p'],
        dt matches Dt::Ms(n) ==> r@ == decimal(n as nat),
{
    reveal_strlit("-");
    reveal_strlit("gap");
    assert("-"@ =~= seq!['-']);
    assert("gap"@ =~= seq!['g', 'a', 'p']);
}

/// How the time of an EVM block is shown: the seconds since the one listed behind it, zero where
/// the clock ran backwards; a dash where none is.
pub proof fn law_evm_times_are_shown(b: Evm, p: Evm, r: String, alone: String)
    requires
        call_ensures(evm_dt_text, (&b, Some(&p)), r),
        call_ensures(evm_dt_text, (&b, None), alone),
    ensures
        alone@ == seq!['-'],
        b.ts >= p.ts ==> r@ == decimal((b.ts - p.ts) as nat),
        b.ts < p.ts ==> r@ == seq!['0'],
{
    reveal_strlit("-");
    assert("-"@ =~= seq!['-']);
    assert(decimal(0) =~= seq!['0']);
}

/// A board starts empty.
pub proof fn law_boards_start_empty(b: Board, address: Seq<char>)
    requires
        call_ensures(Board::new, (), b),
    ensures
        b.evm@.len() == 0 && b.core@.len() == 0 && b.err@.len() == 0,
        !b.names@.contains_key(address),
{
}

} // verus!
