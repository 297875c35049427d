//! Ids: minting fresh ones, and moving past those a project already uses.

use crate::model::clip::ClipView;
use crate::model::media::MediaView;
use crate::model::project::{Project, ProjectView};
use crate::model::timeline::{Timeline, TimelineView, TrackView};
use crate::text::{
    decimal, decimal_text, is_digit, lemma_decimal, lemma_trailing_decimal, parsed, successor,
    trailing_digits, trailing_number,
};
use vstd::prelude::*;

verus! {

/// Mints ids. Owned by the editor so restored projects advance it past every id
/// a file already uses.
#[derive(Debug)]
pub struct IdMint {
    counter: u64,
}

/// The number an id ends in, where it ends in one the mint could have issued.
pub open spec fn issued(id: Seq<char>) -> Option<nat> {
    parsed(trailing_digits(id))
}

/// The id minted next under a prefix.
pub open spec fn minted(prefix: Seq<char>, counter: nat) -> Seq<char> {
    prefix + decimal(successor(counter))
}

/// The counter past an id.
pub open spec fn adopted(counter: nat, id: Seq<char>) -> nat {
    match issued(id) {
        Some(n) => if n > counter {
            n
        } else {
            counter
        },
        None => counter,
    }
}

/// The counter past every one of these ids.
pub open spec fn adopted_all(counter: nat, ids: Seq<Seq<char>>) -> nat
    decreases ids.len(),
{
    if ids.len() == 0 {
        counter
    } else {
        adopted(adopted_all(counter, ids.drop_last()), ids.last())
    }
}

/// The ids of a timeline: its own, its lanes' and its clips'.
pub open spec fn timeline_ids(timeline: TimelineView) -> Seq<Seq<char>> {
    seq![timeline.id] + timeline.tracks.map_values(|t: TrackView| t.id)
        + timeline.clips.map_values(|c: ClipView| c.id)
}

pub open spec fn timelines_ids(timelines: Seq<TimelineView>) -> Seq<Seq<char>>
    decreases timelines.len(),
{
    if timelines.len() == 0 {
        Seq::empty()
    } else {
        timelines_ids(timelines.drop_last()) + timeline_ids(timelines.last())
    }
}

/// Every id a project uses.
pub open spec fn project_ids(project: ProjectView) -> Seq<Seq<char>> {
    project.media.map_values(|m: MediaView| m.id) + timelines_ids(project.timelines)
}

proof fn lemma_adopted_append(counter: nat, a: Seq<Seq<char>>, b: Seq<Seq<char>>)
    ensures
        adopted_all(counter, a + b) == adopted_all(adopted_all(counter, a), b),
    decreases b.len(),
{
    if b.len() == 0 {
        assert(a + b =~= a);
    } else {
        assert((a + b).drop_last() =~= a + b.drop_last());
        assert((a + b).last() == b.last());
        lemma_adopted_append(counter, a, b.drop_last());
    }
}

/// The counter covers every id it moved past.
pub proof fn lemma_adopted_covers(counter: nat, ids: Seq<Seq<char>>)
    ensures
        adopted_all(counter, ids) >= counter,
        forall|i: int|
            0 <= i < ids.len() ==> covered(#[trigger] ids[i], adopted_all(counter, ids)),
    decreases ids.len(),
{
    if ids.len() > 0 {
        lemma_adopted_covers(counter, ids.drop_last());
        assert forall|i: int| 0 <= i < ids.len() implies covered(
            #[trigger] ids[i],
            adopted_all(counter, ids),
        ) by {
            if i < ids.len() - 1 {
                assert(covered(ids.drop_last()[i], adopted_all(counter, ids.drop_last())));
            }
        }
    }
}

/// Whether an id carries no number past the counter.
pub open spec fn covered(id: Seq<char>, counter: nat) -> bool {
    match issued(id) {
        Some(n) => n <= counter,
        None => true,
    }
}

/// A minted id is no id the counter covers: nothing minted can collide with what
/// a file already uses, nor with what was minted before.
pub proof fn lemma_minted_fresh(prefix: Seq<char>, counter: nat, id: Seq<char>)
    requires
        prefix.len() == 0 || !is_digit(prefix.last()),
        counter < u64::MAX,
        covered(id, counter),
    ensures
        minted(prefix, counter) != id,
        issued(minted(prefix, counter)) == Some(counter + 1),
{
    let n = counter + 1;
    lemma_trailing_decimal(prefix, n);
    lemma_decimal(n);
}

/// Every id a project uses is covered once the mint has moved past the project.
pub proof fn lemma_project_covered(counter: nat, project: ProjectView, id: Seq<char>)
    requires
        project_ids(project).contains(id),
    ensures
        covered(id, adopted_all(counter, project_ids(project))),
{
    lemma_adopted_covers(counter, project_ids(project));
    let i = choose|i: int|
        0 <= i < project_ids(project).len() && #[trigger] project_ids(project)[i] == id;
    assert(covered(project_ids(project)[i], adopted_all(counter, project_ids(project))));
}

impl IdMint {
    /// The number minted last.
    pub closed spec fn view(&self) -> nat {
        self.counter as nat
    }

    /// A mint that has issued nothing.
    pub fn new() -> (r: IdMint)
        ensures
            r@ == 0,
    {
        IdMint { counter: 0 }
    }

    /// The next fresh id: the prefix plus a counter shared across all prefixes,
    /// so no two ids share a number.
    pub fn next(&mut self, prefix: &str) -> (r: String)
        ensures
            r@ == minted(prefix@, old(self)@),
            final(self)@ == successor(old(self)@),
    {
        self.counter = if self.counter == u64::MAX {
            0
        } else {
            self.counter + 1
        };
        let mut id: String = prefix.to_owned();
        id.append(decimal_text(self.counter).as_str());
        id
    }

    /// Advances the counter past `id`'s numeric suffix, if it has one.
    pub fn adopt(&mut self, id: &str)
        ensures
            final(self)@ == adopted(old(self)@, id@),
    {
        match trailing_number(id) {
            Some(value) => {
                if value > self.counter {
                    self.counter = value;
                }
            },
            None => {},
        }
    }

    fn adopt_timeline(&mut self, timeline: &Timeline)
        ensures
            final(self)@ == adopted_all(old(self)@, timeline_ids(timeline@)),
    {
        let ghost start = self@;
        let ghost own = seq![timeline@.id];
        let ghost lanes = timeline@.tracks.map_values(|t: TrackView| t.id);
        let ghost pieces = timeline@.clips.map_values(|c: ClipView| c.id);
        self.adopt(timeline.id.as_str());
        proof {
            assert(own.drop_last() =~= Seq::<Seq<char>>::empty());
            assert(adopted_all(start, own.drop_last()) == start);
            assert(self@ == adopted_all(start, own));
        }
        let ghost first = self@;
        let mut i: usize = 0;
        assert(lanes.take(0) =~= Seq::<Seq<char>>::empty());
        while i < timeline.tracks.len()
            invariant
                i <= timeline.tracks.len(),
                lanes == timeline@.tracks.map_values(|t: TrackView| t.id),
                self@ == adopted_all(first, lanes.take(i as int)),
            decreases timeline.tracks.len() - i,
        {
            proof {
                assert(lanes.take(i as int + 1).drop_last() =~= lanes.take(i as int));
                assert(lanes.take(i as int + 1).last() == timeline.tracks@[i as int].id@);
            }
            self.adopt(timeline.tracks[i].id.as_str());
            i = i + 1;
        }
        assert(lanes.take(lanes.len() as int) =~= lanes);
        let ghost second = self@;
        let mut i: usize = 0;
        assert(pieces.take(0) =~= Seq::<Seq<char>>::empty());
        while i < timeline.clips.len()
            invariant
                i <= timeline.clips.len(),
                pieces == timeline@.clips.map_values(|c: ClipView| c.id),
                self@ == adopted_all(second, pieces.take(i as int)),
            decreases timeline.clips.len() - i,
        {
            proof {
                assert(pieces.take(i as int + 1).drop_last() =~= pieces.take(i as int));
                assert(pieces.take(i as int + 1).last() == timeline.clips@[i as int].id@);
            }
            self.adopt(timeline.clips[i].id.as_str());
            i = i + 1;
        }
        assert(pieces.take(pieces.len() as int) =~= pieces);
        proof {
            lemma_adopted_append(start, own, lanes);
            lemma_adopted_append(start, own + lanes, pieces);
        }
    }

    /// Adopts every id a restored project uses, so nothing minted afterwards can
    /// collide with the file.
    pub fn adopt_project(&mut self, project: &Project)
        ensures
            final(self)@ == adopted_all(old(self)@, project_ids(project@)),
    {
        let ghost start = self@;
        let ghost bin = project@.media.map_values(|m: MediaView| m.id);
        let mut i: usize = 0;
        assert(bin.take(0) =~= Seq::<Seq<char>>::empty());
        while i < project.media.len()
            invariant
                i <= project.media.len(),
                bin == project@.media.map_values(|m: MediaView| m.id),
                self@ == adopted_all(start, bin.take(i as int)),
            decreases project.media.len() - i,
        {
            proof {
                assert(bin.take(i as int + 1).drop_last() =~= bin.take(i as int));
                assert(bin.take(i as int + 1).last() == project.media@[i as int].id@);
            }
            self.adopt(project.media[i].id.as_str());
            i = i + 1;
        }
        assert(bin.take(bin.len() as int) =~= bin);
        let ghost first = self@;
        let ghost views = project@.timelines;
        let mut i: usize = 0;
        assert(views.take(0) =~= Seq::<TimelineView>::empty());
        while i < project.timelines.len()
            invariant
                i <= project.timelines.len(),
                views == project@.timelines,
                self@ == adopted_all(first, timelines_ids(views.take(i as int))),
            decreases project.timelines.len() - i,
        {
            proof {
                assert(views.take(i as int + 1).drop_last() =~= views.take(i as int));
                assert(views.take(i as int + 1).last() == project.timelines@[i as int]@);
                lemma_adopted_append(
                    first,
                    timelines_ids(views.take(i as int)),
                    timeline_ids(project.timelines@[i as int]@),
                );
            }
            self.adopt_timeline(&*project.timelines[i]);
            i = i + 1;
        }
        assert(views.take(views.len() as int) =~= views);
        proof {
            lemma_adopted_append(start, bin, timelines_ids(views));
        }
    }
}

impl Default for IdMint {
    fn default() -> (r: IdMint)
        ensures
            r@ == 0,
    {
        IdMint::new()
    }
}

} // verus!
