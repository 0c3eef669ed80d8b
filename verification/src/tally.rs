//! Tallies: amounts added up by name, with the names in the order in which they
//! first came.

use vstd::prelude::*;

verus! {

/// The sum of the amounts under one name.
pub open spec fn total_for(log: Seq<(Seq<char>, int)>, name: Seq<char>) -> int
    decreases log.len(),
{
    if log.len() == 0 {
        0
    } else {
        total_for(log.drop_last(), name) + if log.last().0 == name {
            log.last().1
        } else {
            0
        }
    }
}

/// The names, each once, in the order in which they first came.
pub open spec fn names_of(log: Seq<(Seq<char>, int)>) -> Seq<Seq<char>>
    decreases log.len(),
{
    if log.len() == 0 {
        Seq::empty()
    } else {
        let earlier = names_of(log.drop_last());
        if earlier.contains(log.last().0) {
            earlier
        } else {
            earlier.push(log.last().0)
        }
    }
}

/// Each name with the sum of its amounts, in the order in which the names first came.
pub open spec fn tally(log: Seq<(Seq<char>, int)>) -> Seq<(Seq<char>, int)> {
    names_of(log).map_values(|name: Seq<char>| (name, total_for(log, name)))
}

/// A tally lists exactly the names that occur, each once.
pub proof fn lemma_names_of(log: Seq<(Seq<char>, int)>)
    ensures
        names_of(log).no_duplicates(),
        names_of(log).len() <= log.len(),
        log.len() > 0 ==> names_of(log).len() > 0 && names_of(log)[0] == log[0].0,
        forall|name: Seq<char>| #[trigger]
            names_of(log).contains(name) <==> exists|i: int|
                0 <= i < log.len() && (#[trigger] log[i]).0 == name,
    decreases log.len(),
{
    if log.len() > 0 {
        let early = log.drop_last();
        let earlier = names_of(early);
        lemma_names_of(early);
        let names = names_of(log);
        assert forall|name: Seq<char>| #[trigger] names.contains(name) <==> exists|i: int|
            0 <= i < log.len() && (#[trigger] log[i]).0 == name by {
            if names.contains(name) {
                if earlier.contains(name) {
                    let i = choose|i: int| 0 <= i < early.len() && (#[trigger] early[i]).0 == name;
                    assert(log[i].0 == name);
                } else {
                    assert(name == log.last().0);
                    assert(log[log.len() - 1].0 == name);
                }
            }
            if exists|i: int| 0 <= i < log.len() && (#[trigger] log[i]).0 == name {
                let i = choose|i: int| 0 <= i < log.len() && (#[trigger] log[i]).0 == name;
                if i < early.len() {
                    assert(early[i].0 == name);
                    assert(earlier.contains(name));
                    let k = choose|k: int| 0 <= k < earlier.len() && earlier[k] == name;
                    assert(names[k] == name);
                } else {
                    if earlier.contains(name) {
                        assert(names.contains(name));
                    } else {
                        assert(names[names.len() - 1] == name);
                    }
                }
            }
        }
        if early.len() > 0 {
            assert(log[0] == early[0]);
        } else {
            assert(!earlier.contains(log.last().0));
        }
    }
}

/// A name that does not occur has nothing under it.
pub proof fn lemma_total_for_absent(log: Seq<(Seq<char>, int)>, name: Seq<char>)
    requires
        !names_of(log).contains(name),
    ensures
        total_for(log, name) == 0,
    decreases log.len(),
{
    if log.len() > 0 {
        let earlier = names_of(log.drop_last());
        if earlier.contains(name) {
            let k = choose|k: int| 0 <= k < earlier.len() && earlier[k] == name;
            assert(names_of(log)[k] == name);
        }
        if log.last().0 == name {
            assert(names_of(log)[names_of(log).len() - 1] == name || earlier.contains(name));
        }
        lemma_total_for_absent(log.drop_last(), name);
    }
}

/// The sum of all amounts.
pub open spec fn total_of(log: Seq<(Seq<char>, int)>) -> int
    decreases log.len(),
{
    if log.len() == 0 {
        0
    } else {
        total_of(log.drop_last()) + log.last().1
    }
}

/// Every amount is a 64-bit number.
pub(crate) open spec fn small_amounts(log: Seq<(Seq<char>, int)>) -> bool {
    forall|i: int| 0 <= i < log.len() ==> i64::MIN <= (#[trigger] log[i]).1 <= i64::MAX
}

proof fn lemma_total_bounded(log: Seq<(Seq<char>, int)>, name: Seq<char>)
    requires
        small_amounts(log),
    ensures
        -0x8000_0000_0000_0000 * log.len() <= total_for(log, name) <= 0x8000_0000_0000_0000
            * log.len(),
    decreases log.len(),
{
    if log.len() > 0 {
        assert(i64::MIN <= log[log.len() - 1].1 <= i64::MAX);
        assert forall|i: int| 0 <= i < log.drop_last().len() implies i64::MIN <= (
        #[trigger] log.drop_last()[i]).1 <= i64::MAX by {
            assert(log.drop_last()[i] == log[i]);
        }
        lemma_total_bounded(log.drop_last(), name);
    }
}

/// One more amount changes the sum of its name alone, and brings that name where it
/// is new.
proof fn lemma_tally_push(log: Seq<(Seq<char>, int)>, name: Seq<char>, amount: int)
    ensures
        names_of(log.push((name, amount))) == if names_of(log).contains(name) {
            names_of(log)
        } else {
            names_of(log).push(name)
        },
        forall|n: Seq<char>| #[trigger]
            total_for(log.push((name, amount)), n) == total_for(log, n) + if n == name {
                amount
            } else {
                0
            },
{
    assert(log.push((name, amount)).drop_last() =~= log);
}

/// One line of a tally.
pub(crate) struct Line {
    pub name: String,
    pub sum: i128,
}

impl Line {
    pub(crate) open spec fn view(&self) -> (Seq<char>, int) {
        (self.name@, self.sum as int)
    }
}

/// A tally under construction, with the amounts that went into it.
pub(crate) struct Tally {
    pub lines: Vec<Line>,
    pub log: Ghost<Seq<(Seq<char>, int)>>,
}

impl Tally {
    /// The lines are the tally of the amounts.
    pub(crate) open spec fn wf(self) -> bool {
        &&& small_amounts(self.log@)
        &&& self.lines@.map_values(|l: Line| l@) == tally(self.log@)
    }

    /// A tally of nothing.
    pub(crate) fn new() -> (t: Tally)
        ensures
            t.wf(),
            t.log@ == Seq::<(Seq<char>, int)>::empty(),
    {
        let t = Tally { lines: Vec::new(), log: Ghost(Seq::empty()) };
        assert(t.lines@.map_values(|l: Line| l@) =~= tally(t.log@));
        t
    }

    /// Adds an amount under a name, and returns the sum that the name then has.
    #[verifier::loop_isolation(false)]
    pub(crate) fn add(&mut self, name: &String, amount: i64) -> (sum: i128)
        requires
            old(self).wf(),
            old(self).log@.len() < usize::MAX,
        ensures
            final(self).wf(),
            final(self).log@ == old(self).log@.push((name@, amount as int)),
            sum == total_for(final(self).log@, name@),
    {
        let ghost log = self.log@;
        let ghost more = log.push((name@, amount as int));
        let ghost lines = self.lines@;
        proof {
            lemma_tally_push(log, name@, amount as int);
            lemma_names_of(log);
            lemma_total_bounded(log, name@);
            assert(small_amounts(more));
            assert forall|k: int| 0 <= k < lines.len() implies (#[trigger] lines[k])@ == tally(
                log,
            )[k] by {
                assert(lines.map_values(|l: Line| l@)[k] == lines[k]@);
            }
            assert(lines.map_values(|l: Line| l@).len() == lines.len());
        }
        let mut i: usize = 0;
        while i < self.lines.len()
            invariant
                i <= self.lines@.len(),
                self.lines@ == lines,
                forall|k: int| 0 <= k < i ==> (#[trigger] lines[k]).name@ != name@,
            decreases self.lines@.len() - i,
        {
            if self.lines[i].name == *name {
                proof {
                    assert(lines[i as int]@ == tally(log)[i as int]);
                    assert(names_of(log)[i as int] == name@);
                }
                let sum: i128 = self.lines[i].sum + amount as i128;
                let line = Line { name: name.clone(), sum };
                self.lines.set(i, line);
                self.log = Ghost(more);
                proof {
                    assert forall|k: int| 0 <= k < lines.len() implies (#[trigger] self.lines@[k])@
                        == tally(more)[k] by {
                        assert(lines[k]@ == tally(log)[k]);
                        assert(names_of(log)[k] == lines[k].name@);
                        if k != i {
                            assert(names_of(log)[k] != name@);
                        }
                    }
                    assert(self.lines@.map_values(|l: Line| l@) =~= tally(more));
                }
                return sum;
            }
            i += 1;
        }
        let sum: i128 = amount as i128;
        self.lines.push(Line { name: name.clone(), sum });
        self.log = Ghost(more);
        proof {
            assert(!names_of(log).contains(name@)) by {
                if names_of(log).contains(name@) {
                    let k = choose|k: int| 0 <= k < names_of(log).len() && names_of(log)[k] == name@;
                    assert(lines[k]@ == tally(log)[k]);
                }
            }
            lemma_total_for_absent(log, name@);
            assert forall|k: int| 0 <= k < self.lines@.len() implies (#[trigger] self.lines@[k])@
                == tally(more)[k] by {
                if k < lines.len() {
                    assert(lines[k]@ == tally(log)[k]);
                    assert(names_of(log)[k] == lines[k].name@);
                }
            }
            assert(self.lines@.map_values(|l: Line| l@) =~= tally(more));
        }
        sum
    }
}

} // verus!
