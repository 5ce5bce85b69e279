//! The source of random draws.
use vstd::prelude::*;
use rand::rngs::ThreadRng;
use rand::Rng;
use crate::fixed::UNIT;

verus! {

/// The thread-local generator of the `rand` crate, carried as an opaque value.
#[verifier::external_type_specification]
#[verifier::external_body]
pub struct ExThreadRng(ThreadRng);

/// Calls `rand::thread_rng`, which hands out a handle to the thread-local
/// generator. Nothing is claimed of the handle.
#[verifier::external_body]
fn thread_handle() -> ThreadRng {
    rand::thread_rng()
}

/// Calls `Rng::gen::<u64>` on the thread-local generator. The word may be any
/// `u64`, so nothing is claimed of it.
#[verifier::external_body]
fn thread_word(rng: &mut ThreadRng) -> u64 {
    rng.gen::<u64>()
}

/// A script that a source can replay: it is not empty, and every entry is
/// a draw, that is below `UNIT`.
pub open spec fn script_ok(script: Seq<u64>) -> bool {
    script.len() > 0 && forall|i: int| 0 <= i < script.len() ==> #[trigger] script[i] < UNIT
}

/// The draw that a script yields at a cursor: the script is read round and
/// round.
pub open spec fn script_draw(script: Seq<u64>, cursor: int) -> int
    recommends
        script.len() > 0,
{
    script[cursor % (script.len() as int)] as int
}

/// The cursor after one draw from a script.
pub open spec fn script_advance(script: Seq<u64>, cursor: int) -> int
    recommends
        script.len() > 0,
{
    cursor % (script.len() as int) + 1
}

/// The cursor after `k` draws from a script.
pub open spec fn script_skip(script: Seq<u64>, cursor: int, k: nat) -> int
    decreases k,
{
    if k == 0 {
        cursor
    } else {
        script_advance(script, script_skip(script, cursor, (k - 1) as nat))
    }
}

/// The draw that a script yields after `k` earlier draws.
pub open spec fn script_nth(script: Seq<u64>, cursor: int, k: nat) -> int {
    script_draw(script, script_skip(script, cursor, k))
}

/// Skipping `a` draws and then `b` is skipping `a + b`.
pub proof fn lemma_script_skip_add(script: Seq<u64>, cursor: int, a: nat, b: nat)
    ensures
        script_skip(script, script_skip(script, cursor, a), b) == script_skip(script, cursor, a + b),
    decreases b,
{
    if b > 0 {
        lemma_script_skip_add(script, cursor, a, (b - 1) as nat);
    }
}

/// A list of draws with the position of the next one. It may be empty.
pub struct Script {
    entries: Vec<u64>,
    cursor: usize,
}

impl Script {
    /// Every entry is a draw.
    #[verifier::type_invariant]
    spec fn entries_are_draws(&self) -> bool {
        forall|i: int| 0 <= i < self.entries@.len() ==> #[trigger] self.entries@[i] < UNIT
    }

    /// The draws.
    pub closed spec fn entries(&self) -> Seq<u64> {
        self.entries@
    }

    /// The position of the next draw.
    pub closed spec fn cursor(&self) -> int {
        self.cursor as int
    }

    /// The script of `entries`, at its first entry.
    fn new(entries: Vec<u64>) -> (s: Script)
        requires
            forall|i: int| 0 <= i < entries@.len() ==> #[trigger] entries@[i] < UNIT,
        ensures
            s.entries() == entries@,
            s.cursor() == 0,
    {
        Script { entries, cursor: 0 }
    }

    /// How many draws the script holds.
    fn len(&self) -> (n: usize)
        ensures
            n == self.entries().len(),
    {
        self.entries.len()
    }

    /// The entry under the cursor, which moves on.
    fn draw(&mut self) -> (d: u64)
        requires
            old(self).entries().len() > 0,
        ensures
            d < UNIT,
            d == script_draw(old(self).entries(), old(self).cursor()),
            final(self).entries() == old(self).entries(),
            final(self).cursor() == script_advance(old(self).entries(), old(self).cursor()),
    {
        proof {
            use_type_invariant(&*self);
        }
        let at: usize = self.cursor % self.entries.len();
        self.cursor = at + 1;
        self.entries[at]
    }
}

/// A source of draws in `[0, 1)`, as fixed-point fractions of `UNIT`.
///
/// It is either the thread-local random generator, or a script: a fixed list
/// of draws that is replayed round and round. A source without a script
/// draws from the thread-local generator.
pub struct DrawSource {
    rng: Option<ThreadRng>,
    script: Script,
}

impl DrawSource {
    /// Whether the source replays a script.
    pub closed spec fn is_scripted(&self) -> bool {
        self.script.entries().len() > 0
    }

    /// The script that a scripted source replays.
    pub closed spec fn script(&self) -> Seq<u64> {
        self.script.entries()
    }

    /// The position in the script of the next draw.
    pub closed spec fn cursor(&self) -> int {
        self.script.cursor()
    }

    /// Whether `script` can be replayed: whether it holds a draw, and draws only.
    pub fn accepts(script: &Vec<u64>) -> (b: bool)
        ensures
            b == script_ok(script@),
    {
        let n: usize = script.len();
        let mut i: usize = 0;
        while i < n
            invariant
                i <= n,
                n == script@.len(),
                forall|k: int| 0 <= k < i ==> #[trigger] script@[k] < UNIT,
            decreases n - i,
        {
            if script[i] >= UNIT {
                return false;
            }
            i = i + 1;
        }
        n > 0
    }

    /// A source that draws from the thread-local random generator.
    pub fn thread() -> (s: DrawSource)
        ensures
            !s.is_scripted(),
    {
        DrawSource { rng: Some(thread_handle()), script: Script::new(Vec::new()) }
    }

    /// A source that replays `script`, starting at its first entry. The
    /// script must hold a draw, and draws only: an entry that is no draw is
    /// not reduced to one.
    pub fn replay(script: Vec<u64>) -> (s: DrawSource)
        requires
            script_ok(script@),
        ensures
            s.is_scripted(),
            s.script() == script@,
            s.cursor() == 0,
    {
        DrawSource { rng: None, script: Script::new(script) }
    }

    /// The next draw. A scripted source yields the entry under its cursor and
    /// moves on; the thread-local generator yields the top 53 bits of a random
    /// word, which is how `rand` makes a float in `[0, 1)`.
    pub fn next(&mut self) -> (d: u64)
        ensures
            d < UNIT,
            final(self).is_scripted() == old(self).is_scripted(),
            final(self).script() == old(self).script(),
            old(self).is_scripted() ==> d == script_draw(old(self).script(), old(self).cursor())
                && final(self).cursor() == script_advance(old(self).script(), old(self).cursor()),
    {
        if self.script.len() > 0 {
            self.script.draw()
        } else {
            let mut handle: ThreadRng = match self.rng.take() {
                Some(kept) => kept,
                None => thread_handle(),
            };
            let word: u64 = thread_word(&mut handle);
            self.rng = Some(handle);
            word / 2048
        }
    }
}

} // verus!
