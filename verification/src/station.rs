//! Stations and the booking of their platforms.

pub mod platform;

use crate::station::platform::Platform;
use crate::train::TrainType;
use vstd::prelude::*;

verus! {

/// A station of the network: a node of the route graph.
#[derive(Debug, PartialEq)]
pub struct Station {
    pub id: u32,
    pub name: String,
    pub platforms: Vec<Platform>,
}

/// What a [`Station`] is, as plain values.
pub struct StationView {
    pub id: u32,
    pub name: Seq<char>,
    pub platforms: Seq<Platform>,
}

impl View for Station {
    type V = StationView;

    open spec fn view(&self) -> StationView {
        StationView { id: self.id, name: self.name@, platforms: self.platforms@ }
    }
}

/// Why a booking on a station failed.
#[derive(Debug, PartialEq, Eq)]
pub enum PlatformError {
    /// The station has no platform at the requested position.
    PlatformNotFound,
}

/// The classes of the platforms that a list of `(count, class)` entries asks
/// for: `count` times `class` for each entry, in the order of the entries.
pub open spec fn platform_classes(specs: Seq<(u8, TrainType)>) -> Seq<TrainType>
    decreases specs.len(),
{
    if specs.len() == 0 {
        Seq::empty()
    } else {
        platform_classes(specs.drop_last()) + Seq::new(
            specs.last().0 as nat,
            |i: int| specs.last().1,
        )
    }
}

/// `count` free platforms of class `class`, numbered upwards from `first_id`.
pub open spec fn platform_run(first_id: int, count: nat, class: TrainType) -> Seq<Platform> {
    Seq::new(
        count,
        |i: int| Platform { id: (first_id + i) as u8, occupied: false, platform_type: class },
    )
}

/// Free platforms of the given classes, numbered upwards from 0.
pub open spec fn fresh_platforms(classes: Seq<TrainType>) -> Seq<Platform> {
    Seq::new(
        classes.len(),
        |i: int| Platform { id: i as u8, occupied: false, platform_type: classes[i] },
    )
}

/// The platform ids are the positions: 0, 1, 2, ... in the order of the
/// platforms, which therefore number at most 256.
pub open spec fn dense_ids(platforms: Seq<Platform>) -> bool {
    forall|i: int| 0 <= i < platforms.len() ==> (#[trigger] platforms[i]).id == i
}

/// What `available_platform` answers for `class` on `platforms`: the id of the
/// first platform in order that is free for `class`, if there is one.
pub open spec fn first_available(
    platforms: Seq<Platform>,
    class: TrainType,
    answer: Option<u8>,
) -> bool {
    match answer {
        Some(id) => exists|i: int|
            {
                &&& 0 <= i < platforms.len()
                &&& (#[trigger] platforms[i]).is_free_for(class)
                &&& platforms[i].id == id
                &&& forall|j: int| 0 <= j < i ==> !(#[trigger] platforms[j]).is_free_for(class)
            },
        None => forall|i: int|
            0 <= i < platforms.len() ==> !(#[trigger] platforms[i]).is_free_for(class),
    }
}

/// On a station whose platform ids are the positions, `available_platform`
/// answers `None` exactly when no platform is free for the class, and else
/// with the lowest id of the platforms that are free for it.
pub proof fn lemma_available_is_lowest(
    platforms: Seq<Platform>,
    class: TrainType,
    answer: Option<u8>,
)
    requires
        dense_ids(platforms),
        first_available(platforms, class, answer),
    ensures
        answer is None <==> forall|i: int|
            0 <= i < platforms.len() ==> !(#[trigger] platforms[i]).is_free_for(class),
        answer matches Some(id) ==> {
            &&& id < platforms.len()
            &&& platforms[id as int].id == id
            &&& platforms[id as int].is_free_for(class)
            &&& forall|i: int|
                0 <= i < platforms.len() && (#[trigger] platforms[i]).is_free_for(class) ==> id
                    <= platforms[i].id
        },
{
    if let Some(id) = answer {
        let at = choose|i: int|
            {
                &&& 0 <= i < platforms.len()
                &&& (#[trigger] platforms[i]).is_free_for(class)
                &&& platforms[i].id == id
                &&& forall|j: int| 0 <= j < i ==> !(#[trigger] platforms[j]).is_free_for(class)
            };
        assert(platforms[at].id == at);
    }
}

/// A prefix of a list of entries asks for a prefix of the platforms.
pub proof fn lemma_platform_classes_prefix(specs: Seq<(u8, TrainType)>, n: int)
    requires
        0 <= n <= specs.len(),
    ensures
        platform_classes(specs.take(n)).len() <= platform_classes(specs).len(),
        n < specs.len() ==> platform_classes(specs.take(n + 1)) == platform_classes(
            specs.take(n),
        ) + Seq::new(specs[n].0 as nat, |i: int| specs[n].1),
    decreases specs.len() - n,
{
    if n < specs.len() {
        assert(specs.take(n + 1).drop_last() == specs.take(n));
        lemma_platform_classes_prefix(specs, n + 1);
    } else {
        assert(specs.take(n) == specs);
    }
}

impl Station {
    /// Whether the platform ids of this station are its positions.
    pub open spec fn wf(&self) -> bool {
        dense_ids(self.platforms@)
    }

    /// Creates a station that takes its id from `id` and advances that
    /// counter by one. `platform_nums` lists `(count, class)` entries; the
    /// station gets `count` free platforms of `class` for each, numbered from 0
    /// in the order of the entries.
    pub fn new(id: &mut u32, name: String, platform_nums: Vec<(u8, TrainType)>) -> (r: Station)
        requires
            *old(id) < u32::MAX,
            platform_classes(platform_nums@).len() <= u8::MAX,
        ensures
            r.id == *old(id),
            *final(id) == *old(id) + 1,
            r.name == name,
            r.platforms@ == fresh_platforms(platform_classes(platform_nums@)),
            r.wf(),
    {
        let mut platform_id: u8 = 0;
        let mut all_platforms: Vec<Platform> = Vec::new();
        let mut k: usize = 0;
        while k < platform_nums.len()
            invariant
                k <= platform_nums.len(),
                platform_classes(platform_nums@).len() <= u8::MAX,
                platform_id == platform_classes(platform_nums@.take(k as int)).len(),
                all_platforms@ == fresh_platforms(
                    platform_classes(platform_nums@.take(k as int)),
                ),
            decreases platform_nums.len() - k,
        {
            let (pf_num, pf_type) = platform_nums[k];
            proof {
                lemma_platform_classes_prefix(platform_nums@, k as int);
                lemma_platform_classes_prefix(platform_nums@, k as int + 1);
            }
            let mut generated = Self::platform_gen(pf_num, pf_type, &mut platform_id);
            all_platforms.append(&mut generated);
            k += 1;
            assert(all_platforms@ == fresh_platforms(
                platform_classes(platform_nums@.take(k as int)),
            ));
        }
        assert(platform_nums@.take(k as int) == platform_nums@);
        let the_station = Station { id: *id, name, platforms: all_platforms };
        *id += 1;
        the_station
    }

    /// The number of platforms that `platform_nums` asks for, or `None` where
    /// that is more than a station can number.
    pub fn platform_total(platform_nums: &Vec<(u8, TrainType)>) -> (r: Option<u8>)
        ensures
            match r {
                Some(total) => total == platform_classes(platform_nums@).len(),
                None => platform_classes(platform_nums@).len() > u8::MAX,
            },
    {
        let mut total: u8 = 0;
        let mut k: usize = 0;
        while k < platform_nums.len()
            invariant
                k <= platform_nums.len(),
                total == platform_classes(platform_nums@.take(k as int)).len(),
            decreases platform_nums.len() - k,
        {
            let pf_num = platform_nums[k].0;
            proof {
                lemma_platform_classes_prefix(platform_nums@, k as int);
                lemma_platform_classes_prefix(platform_nums@, k as int + 1);
            }
            if pf_num > u8::MAX - total {
                return None;
            }
            total += pf_num;
            k += 1;
        }
        assert(platform_nums@.take(k as int) == platform_nums@);
        Some(total)
    }

    /// Creates `number` free platforms of class `platform_type`, numbered
    /// upwards from `id`, and advances `id` past them.
    pub fn platform_gen(number: u8, platform_type: TrainType, id: &mut u8) -> (r: Vec<Platform>)
        requires
            *old(id) + number <= u8::MAX,
        ensures
            r@ == platform_run(*old(id) as int, number as nat, platform_type),
            *final(id) == *old(id) + number,
    {
        let mut plat_vec: Vec<Platform> = Vec::new();
        let mut made: u8 = 0;
        while made < number
            invariant
                made <= number,
                *id == *old(id) + made,
                *old(id) + number <= u8::MAX,
                plat_vec@ == platform_run(*old(id) as int, made as nat, platform_type),
            decreases number - made,
        {
            let a_plat = Platform::new(*id, platform_type);
            plat_vec.push(a_plat);
            *id += 1;
            made += 1;
            assert(plat_vec@ == platform_run(*old(id) as int, made as nat, platform_type));
        }
        plat_vec
    }

    /// The id of the first platform, in the order of the platforms, that is
    /// free and of class `plat_type`; `None` when every platform of that class
    /// is occupied or there is none.
    pub fn available_platform(&self, plat_type: TrainType) -> (r: Option<u8>)
        ensures
            first_available(self.platforms@, plat_type, r),
    {
        let mut k: usize = 0;
        while k < self.platforms.len()
            invariant
                k <= self.platforms.len(),
                forall|j: int| 0 <= j < k ==> !(#[trigger] self.platforms@[j]).is_free_for(plat_type),
            decreases self.platforms.len() - k,
        {
            let plat = &self.platforms[k];
            if plat.occupied == false && plat.platform_type == plat_type {
                return Some(plat.id);
            }
            k += 1;
        }
        None
    }

    /// Marks the platform at position `booking_id` as occupied.
    pub fn enter_station(&mut self, booking_id: u8) -> (r: Result<(), PlatformError>)
        ensures
            final(self)@ == old(self).with_occupancy(booking_id, true),
            old(self).wf() ==> final(self).wf(),
            r is Ok <==> booking_id < old(self).platforms@.len(),
            r is Err ==> r == Err::<(), PlatformError>(PlatformError::PlatformNotFound),
    {
        self.set_occupied(booking_id, true)
    }

    /// Marks the platform at position `plat_id` as free.
    pub fn leave_station(&mut self, plat_id: u8) -> (r: Result<(), PlatformError>)
        ensures
            final(self)@ == old(self).with_occupancy(plat_id, false),
            old(self).wf() ==> final(self).wf(),
            r is Ok <==> plat_id < old(self).platforms@.len(),
            r is Err ==> r == Err::<(), PlatformError>(PlatformError::PlatformNotFound),
    {
        self.set_occupied(plat_id, false)
    }

    /// This station with the platform at `position` set to `occupied`; the
    /// station itself where it has no such platform.
    pub open spec fn with_occupancy(&self, position: u8, occupied: bool) -> StationView {
        if position < self.platforms@.len() {
            StationView {
                platforms: self.platforms@.update(
                    position as int,
                    Platform { occupied, ..self.platforms@[position as int] },
                ),
                ..self@
            }
        } else {
            self@
        }
    }

    fn set_occupied(&mut self, position: u8, occupied: bool) -> (r: Result<(), PlatformError>)
        ensures
            final(self)@ == old(self).with_occupancy(position, occupied),
            old(self).wf() ==> final(self).wf(),
            r is Ok <==> position < old(self).platforms@.len(),
            r is Err ==> r == Err::<(), PlatformError>(PlatformError::PlatformNotFound),
    {
        let at: usize = position as usize;
        if at < self.platforms.len() {
            let id = self.platforms[at].id;
            let platform_type = self.platforms[at].platform_type;
            self.platforms.set(at, Platform { id, occupied, platform_type });
            assert(self.platforms@ =~= old(self).platforms@.update(
                position as int,
                Platform { occupied, ..old(self).platforms@[position as int] },
            ));
            Ok(())
        } else {
            Err(PlatformError::PlatformNotFound)
        }
    }
}

} // verus!
