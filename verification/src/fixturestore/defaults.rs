//! What every catalogue starts with: the fixtures of the VRSL lighting
//! system, the moving ones once for each travel that they come in.

use crate::artnet::fixture::Fixture;
use crate::artnet::fixture::FixtureModel;
use crate::fixturestore::filings;
use crate::fixturestore::leads_to;
use crate::fixturestore::vrsl;
use crate::fixturestore::Entry;
use crate::fixturestore::FixtureStore;
use crate::fixturestore::Path;
use crate::sharing::share_text;
use crate::text::texts;
use std::sync::Arc;
use vstd::prelude::*;

verus! {

/// The pan travels that the moving fixtures come in, in degrees, each with
/// the name of its folder.
fn get_pan() -> (r: [(u32, &'static str); 3])
    ensures
        forall|i: int| 0 <= i < 3 ==> (#[trigger] r@[i]).0 == pan_degrees(i) && r@[i].1@ == pan_name(i),
{
    [(180, "Pan180"), (360, "Pan360"), (540, "Pan540")]
}

/// The tilt travels that the moving fixtures come in, in degrees, each with
/// the name of its folder.
fn get_tilt() -> (r: [(u32, &'static str); 3])
    ensures
        forall|i: int| 0 <= i < 3 ==> (#[trigger] r@[i]).0 == tilt_degrees(i) && r@[i].1@ == tilt_name(i),
{
    [(180, "Tilt180"), (250, "Tilt250"), (270, "Tilt270")]
}

pub open spec fn pan_degrees(option: int) -> u32 {
    if option == 0 {
        180
    } else if option == 1 {
        360
    } else {
        540
    }
}

pub open spec fn pan_name(option: int) -> Seq<char> {
    if option == 0 {
        "Pan180"@
    } else if option == 1 {
        "Pan360"@
    } else {
        "Pan540"@
    }
}

pub open spec fn tilt_degrees(option: int) -> u32 {
    if option == 0 {
        180
    } else if option == 1 {
        250
    } else {
        270
    }
}

pub open spec fn tilt_name(option: int) -> Seq<char> {
    if option == 0 {
        "Tilt180"@
    } else if option == 1 {
        "Tilt250"@
    } else {
        "Tilt270"@
    }
}

/// The folder of the moving fixtures with the given pan and tilt options.
pub open spec fn varying_path(pan: int, tilt: int) -> Path {
    seq!["VRSL"@, "varying"@, pan_name(pan), tilt_name(tilt)]
}

/// The moving head and the laser of the first `done` of the nine pairs of a
/// pan and a tilt option, the pairs taken pan by pan.
pub open spec fn varying_entries(done: int) -> Set<Entry>
    decreases done,
{
    if done <= 0 {
        Set::empty()
    } else {
        let pan = (done - 1) / 3;
        let tilt = (done - 1) % 3;
        varying_entries(done - 1).insert(
            (varying_path(pan, tilt), vrsl::moving_head(pan_degrees(pan), tilt_degrees(tilt))),
        ).insert((varying_path(pan, tilt), vrsl::laser(pan_degrees(pan), tilt_degrees(tilt))))
    }
}

/// What every catalogue starts with: three fixtures directly below their
/// manufacturer, and a moving head and a laser for each pair of a pan and a
/// tilt travel.
pub open spec fn default_entries() -> Set<Entry> {
    plain_entries().union(varying_entries(9))
}

/// The three fixtures that are filed directly below their manufacturer.
pub open spec fn plain_entries() -> Set<Entry> {
    set![
        (seq!["VRSL"@], vrsl::par_light()),
        (seq!["VRSL"@], vrsl::bar_light()),
        (seq!["VRSL"@], vrsl::blinder()),
    ]
}

/// The moving heads and lasers of the first `done` pairs of a pan and a
/// tilt option, in the order in which they are filed.
pub open spec fn varying_fixtures(done: int) -> Seq<FixtureModel>
    decreases done,
{
    if done <= 0 {
        Seq::empty()
    } else {
        let pan = (done - 1) / 3;
        let tilt = (done - 1) % 3;
        varying_fixtures(done - 1).push(
            vrsl::moving_head(pan_degrees(pan), tilt_degrees(tilt)),
        ).push(vrsl::laser(pan_degrees(pan), tilt_degrees(tilt)))
    }
}

/// The fixtures that every catalogue starts with, in the order in which they
/// are filed.
pub open spec fn default_fixtures() -> Seq<FixtureModel> {
    seq![vrsl::par_light(), vrsl::bar_light(), vrsl::blinder()] + varying_fixtures(9)
}

impl FixtureStore {
    /// Whether this catalogue is `start` with the entries `added` filed in
    /// it.
    pub open spec fn grown_by(&self, start: FixtureStore, added: Set<Entry>) -> bool {
        &&& self.entries() == start.entries().union(added)
        &&& forall|folder: Path| #[trigger]
            self.folders().contains(folder) <==> start.folders().contains(folder) || leads_to(
                folder,
                added,
            )
    }

    /// Files one more of a row of fixtures.
    fn file(
        &mut self,
        path: &Vec<Arc<str>>,
        fixture: Arc<Fixture>,
        Ghost(start): Ghost<FixtureStore>,
        Ghost(added): Ghost<Set<Entry>>,
        Ghost(row): Ghost<Seq<FixtureModel>>,
    )
        requires
            old(self).wf(),
            old(self).grown_by(start, added),
            old(self).filed() == filings(start.filed(), row),
        ensures
            final(self).wf(),
            final(self).grown_by(start, added.insert((texts(path@), fixture@))),
            final(self).filed() == filings(start.filed(), row.push(fixture@)),
    {
        let ghost entry = (texts(path@), fixture@);
        let ghost before = *self;
        self.put_path(path.as_slice(), fixture);
        proof {
            assert(row.push(fixture@).drop_last() =~= row);
            assert(self.entries() =~= start.entries().union(added.insert(entry)));
            assert forall|folder: Path| #[trigger]
                self.folders().contains(folder) <==> start.folders().contains(folder) || leads_to(
                    folder,
                    added.insert(entry),
                ) by {
                assert(before.folders().contains(folder) <==> start.folders().contains(folder)
                    || leads_to(folder, added));
                if leads_to(folder, added) {
                    let via = choose|via: Entry| #[trigger] added.contains(via) && folder.is_prefix_of(via.0);
                    assert(added.insert(entry).contains(via));
                }
                if folder.is_prefix_of(entry.0) {
                    assert(added.insert(entry).contains(entry));
                }
                if leads_to(folder, added.insert(entry)) {
                    let via = choose|via: Entry| #[trigger]
                        added.insert(entry).contains(via) && folder.is_prefix_of(via.0);
                    if via != entry {
                        assert(added.contains(via));
                    }
                }
            }
        }
    }

    /// Files the fixtures that every catalogue starts with (see
    /// [`default_entries`]). What was filed before stays.
    pub fn populate_fixture_store_defaults(&mut self)
        requires
            old(self).wf(),
        ensures
            final(self).wf(),
            final(self).grown_by(*old(self), default_entries()),
            final(self).filed() == filings(old(self).filed(), default_fixtures()),
    {
        let ghost start = *self;
        let ghost mut added: Set<Entry> = Set::empty();
        let ghost mut row: Seq<FixtureModel> = Seq::empty();
        proof {
            assert(self.entries() =~= start.entries().union(added));
        }
        let mut top: Vec<Arc<str>> = Vec::new();
        top.push(share_text("VRSL"));
        proof {
            assert(texts(top@) =~= seq!["VRSL"@]);
        }
        let par = vrsl::vrsl_par_light();
        self.file(&top, par, Ghost(start), Ghost(added), Ghost(row));
        proof {
            added = added.insert((texts(top@), par@));
            row = row.push(par@);
        }
        let bar = vrsl::vrsl_bar_light();
        self.file(&top, bar, Ghost(start), Ghost(added), Ghost(row));
        proof {
            added = added.insert((texts(top@), bar@));
            row = row.push(bar@);
        }
        let blinder = vrsl::vrsl_blinder();
        self.file(&top, blinder, Ghost(start), Ghost(added), Ghost(row));
        proof {
            added = added.insert((texts(top@), blinder@));
            row = row.push(blinder@);
            assert(added =~= plain_entries().union(varying_entries(0)));
            assert(row =~= seq![vrsl::par_light(), vrsl::bar_light(), vrsl::blinder()] + varying_fixtures(0));
        }
        let pans = get_pan();
        let tilts = get_tilt();
        let mut pan: usize = 0;
        while pan < 3
            invariant
                pan <= 3,
                self.wf(),
                start == *old(self),
                added == plain_entries().union(varying_entries(3 * pan)),
                row == seq![vrsl::par_light(), vrsl::bar_light(), vrsl::blinder()] + varying_fixtures(
                    3 * pan,
                ),
                self.grown_by(start, added),
                self.filed() == filings(start.filed(), row),
                forall|i: int| 0 <= i < 3 ==> (#[trigger] pans@[i]).0 == pan_degrees(i) && pans@[i].1@ == pan_name(i),
                forall|i: int| 0 <= i < 3 ==> (#[trigger] tilts@[i]).0 == tilt_degrees(i) && tilts@[i].1@ == tilt_name(i),
            decreases 3 - pan,
        {
            let mut tilt: usize = 0;
            while tilt < 3
                invariant
                    pan < 3,
                    tilt <= 3,
                    self.wf(),
                    start == *old(self),
                    added == plain_entries().union(varying_entries(3 * pan + tilt)),
                    row == seq![vrsl::par_light(), vrsl::bar_light(), vrsl::blinder()]
                        + varying_fixtures(3 * pan + tilt),
                    self.grown_by(start, added),
                    self.filed() == filings(start.filed(), row),
                    forall|i: int| 0 <= i < 3 ==> (#[trigger] pans@[i]).0 == pan_degrees(i) && pans@[i].1@ == pan_name(i),
                    forall|i: int| 0 <= i < 3 ==> (#[trigger] tilts@[i]).0 == tilt_degrees(i) && tilts@[i].1@ == tilt_name(i),
                decreases 3 - tilt,
            {
                let (max_pan, pan_key) = pans[pan];
                let (max_tilt, tilt_key) = tilts[tilt];
                let mut path: Vec<Arc<str>> = Vec::new();
                path.push(share_text("VRSL"));
                path.push(share_text("varying"));
                path.push(share_text(pan_key));
                path.push(share_text(tilt_key));
                proof {
                    assert(texts(path@) =~= varying_path(pan as int, tilt as int));
                    assert((3 * pan + tilt + 1 - 1) / 3 == pan && (3 * pan + tilt + 1 - 1) % 3 == tilt);
                }
                let mover = vrsl::vrsl_moving_head(max_pan, max_tilt);
                self.file(&path, mover, Ghost(start), Ghost(added), Ghost(row));
                proof {
                    added = added.insert((texts(path@), mover@));
                    row = row.push(mover@);
                }
                let laser = vrsl::vrsl_laser(max_pan, max_tilt);
                self.file(&path, laser, Ghost(start), Ghost(added), Ghost(row));
                proof {
                    added = added.insert((texts(path@), laser@));
                    row = row.push(laser@);
                    assert(added =~= plain_entries().union(varying_entries(3 * pan + tilt + 1)));
                    assert(row =~= seq![vrsl::par_light(), vrsl::bar_light(), vrsl::blinder()]
                        + varying_fixtures(3 * pan + tilt + 1));
                }
                tilt += 1;
            }
            pan += 1;
        }
    }
}

} // verus!
