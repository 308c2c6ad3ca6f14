//! The rover's live status, built up from the sentences of a batch.
//!
//! The receiver's own state (kept by the `nmea` crate) is read after each sentence it
//! accepts; what it shows then is a `ReceiverReading`. The status keeps the last known
//! position, altitude, speed and fix kind, and follows the satellite counts and dilutions of
//! precision of the latest reading. Coordinates (`C`), measurements (`M`), fix kinds (`F`) and
//! accuracy figures (`A`) are carried as they are read.
use vstd::prelude::*;
use crate::text::{chars_of, has_substring, str_contains};

verus! {

/// What the receiver's state shows after it accepted a sentence.
pub struct ReceiverReading<C, M, F> {
    pub latitude: Option<C>,
    pub longitude: Option<C>,
    pub altitude: Option<M>,
    pub speed_over_ground: Option<M>,
    pub fix_type: Option<F>,
    pub satellites: usize,
    pub fix_satellites: Option<u32>,
    pub hdop: Option<M>,
    pub vdop: Option<M>,
    pub pdop: Option<M>,
}

/// The live status reported to clients.
pub struct LiveStatus<C, M, F, A> {
    pub latitude: Option<C>,
    pub longitude: Option<C>,
    pub altitude: Option<M>,
    pub speed_over_ground: Option<M>,
    pub fix_type: Option<F>,
    pub satellites: usize,
    pub fix_satellites: Option<u32>,
    pub accuracy: Option<A>,
    pub hdop: Option<M>,
    pub vdop: Option<M>,
    pub pdop: Option<M>,
}

/// The newer value when there is one, the older otherwise.
pub open spec fn newer<T>(old: Option<T>, new: Option<T>) -> Option<T> {
    if new is Some {
        new
    } else {
        old
    }
}

/// The status after a reading: position only when the reading has both coordinates,
/// altitude, speed and fix kind when the reading has them; counts and dilutions as read;
/// accuracy as before.
pub open spec fn absorbed<C, M, F, A>(
    s: LiveStatus<C, M, F, A>,
    r: ReceiverReading<C, M, F>,
) -> LiveStatus<C, M, F, A> {
    let has_position = r.latitude is Some && r.longitude is Some;
    LiveStatus {
        latitude: if has_position {
            r.latitude
        } else {
            s.latitude
        },
        longitude: if has_position {
            r.longitude
        } else {
            s.longitude
        },
        altitude: newer(s.altitude, r.altitude),
        speed_over_ground: newer(s.speed_over_ground, r.speed_over_ground),
        fix_type: newer(s.fix_type, r.fix_type),
        satellites: r.satellites,
        fix_satellites: r.fix_satellites,
        accuracy: s.accuracy,
        hdop: r.hdop,
        vdop: r.vdop,
        pdop: r.pdop,
    }
}

/// Latitude and longitude are known together or not at all.
pub open spec fn position_is_whole<C, M, F, A>(s: LiveStatus<C, M, F, A>) -> bool {
    (s.latitude is Some) == (s.longitude is Some)
}

impl<C, M, F, A> LiveStatus<C, M, F, A> {
    /// The status before any sentence: nothing known, no satellites.
    pub fn unknown() -> (res: Self)
        ensures
            res.latitude is None,
            res.longitude is None,
            res.altitude is None,
            res.speed_over_ground is None,
            res.fix_type is None,
            res.satellites == 0,
            res.fix_satellites is None,
            res.accuracy is None,
            res.hdop is None,
            res.vdop is None,
            res.pdop is None,
    {
        LiveStatus {
            latitude: None,
            longitude: None,
            altitude: None,
            speed_over_ground: None,
            fix_type: None,
            satellites: 0,
            fix_satellites: None,
            accuracy: None,
            hdop: None,
            vdop: None,
            pdop: None,
        }
    }

    /// The status after the receiver accepted a sentence and shows `reading`.
    pub fn absorb(self, reading: ReceiverReading<C, M, F>) -> (res: Self)
        ensures
            res == absorbed(self, reading),
    {
        let has_position = reading.latitude.is_some() && reading.longitude.is_some();
        let (latitude, longitude) = if has_position {
            (reading.latitude, reading.longitude)
        } else {
            (self.latitude, self.longitude)
        };
        LiveStatus {
            latitude,
            longitude,
            altitude: if reading.altitude.is_some() {
                reading.altitude
            } else {
                self.altitude
            },
            speed_over_ground: if reading.speed_over_ground.is_some() {
                reading.speed_over_ground
            } else {
                self.speed_over_ground
            },
            fix_type: if reading.fix_type.is_some() {
                reading.fix_type
            } else {
                self.fix_type
            },
            satellites: reading.satellites,
            fix_satellites: reading.fix_satellites,
            accuracy: self.accuracy,
            hdop: reading.hdop,
            vdop: reading.vdop,
            pdop: reading.pdop,
        }
    }

    /// The status after a GST sentence: its accuracy when one was read, unchanged otherwise.
    pub fn with_accuracy(self, accuracy: Option<A>) -> (res: Self)
        ensures
            res == (LiveStatus { accuracy: newer(self.accuracy, accuracy), ..self }),
    {
        if accuracy.is_some() {
            LiveStatus { accuracy, ..self }
        } else {
            self
        }
    }

    /// Whether the status knows where the rover is (both coordinates).
    pub fn has_position(&self) -> (res: bool)
        ensures
            res == (self.latitude is Some && self.longitude is Some),
    {
        self.latitude.is_some() && self.longitude.is_some()
    }
}

/// The status never knows one coordinate without the other: it starts knowing neither, and
/// every reading and accuracy update keeps the two together.
pub proof fn law_position_is_whole<C, M, F, A>(
    s: LiveStatus<C, M, F, A>,
    r: ReceiverReading<C, M, F>,
    acc: Option<A>,
)
    requires
        position_is_whole(s),
    ensures
        position_is_whole(absorbed(s, r)),
        position_is_whole(LiveStatus { accuracy: newer(s.accuracy, acc), ..s }),
{
}

/// A reading without a full position leaves the known position where it was.
pub proof fn law_position_survives_partial_readings<C, M, F, A>(
    s: LiveStatus<C, M, F, A>,
    r: ReceiverReading<C, M, F>,
)
    requires
        r.latitude is None || r.longitude is None,
    ensures
        absorbed(s, r).latitude == s.latitude,
        absorbed(s, r).longitude == s.longitude,
{
}

/// Where a sentence of a batch goes: to the receiver's parser when it starts with `$`, to the
/// GST reader when it holds `GST`.
pub struct SentenceRoute {
    pub to_receiver: bool,
    pub to_gst: bool,
}

/// Where a sentence goes.
pub fn route_sentence(sentence: &str) -> (res: SentenceRoute)
    ensures
        res.to_receiver == (sentence@.len() > 0 && sentence@[0] == '$'),
        res.to_gst == has_substring(sentence@, "GST"@),
{
    let chars = chars_of(sentence);
    let to_receiver = chars.len() > 0 && chars[0] == '$';
    SentenceRoute { to_receiver, to_gst: str_contains(sentence, "GST") }
}

/// An update pushed to listeners after the receiver accepted a sentence.
pub enum ReceiverEvent<C, M, F> {
    LatLngUpdate { latitude: C, longitude: C },
    AltitudeUpdate { altitude: M },
    FixUpdate { fix_type: F },
    StatusUpdate { satellites: usize },
}

/// The updates for a reading, in the order they are sent: the position when both coordinates
/// are known, the altitude when known, the fix kind when known, and always the satellite count.
pub open spec fn events_for<C, M, F>(r: ReceiverReading<C, M, F>) -> Seq<ReceiverEvent<C, M, F>> {
    let pos: Seq<ReceiverEvent<C, M, F>> = if r.latitude is Some && r.longitude is Some {
        seq![ReceiverEvent::LatLngUpdate { latitude: r.latitude->0, longitude: r.longitude->0 }]
    } else {
        seq![]
    };
    let alt: Seq<ReceiverEvent<C, M, F>> = if r.altitude is Some {
        seq![ReceiverEvent::AltitudeUpdate { altitude: r.altitude->0 }]
    } else {
        seq![]
    };
    let fix: Seq<ReceiverEvent<C, M, F>> = if r.fix_type is Some {
        seq![ReceiverEvent::FixUpdate { fix_type: r.fix_type->0 }]
    } else {
        seq![]
    };
    pos + alt + fix + seq![ReceiverEvent::StatusUpdate { satellites: r.satellites }]
}

/// The updates sent to listeners for a reading.
pub fn receiver_events<C: Copy, M: Copy, F: Copy>(r: &ReceiverReading<C, M, F>) -> (res: Vec<
    ReceiverEvent<C, M, F>,
>)
    ensures
        res@ == events_for(*r),
{
    let mut res: Vec<ReceiverEvent<C, M, F>> = Vec::new();
    match (r.latitude, r.longitude) {
        (Some(latitude), Some(longitude)) => {
            res.push(ReceiverEvent::LatLngUpdate { latitude, longitude });
        },
        _ => {},
    }
    match r.altitude {
        Some(altitude) => {
            res.push(ReceiverEvent::AltitudeUpdate { altitude });
        },
        None => {},
    }
    match r.fix_type {
        Some(fix_type) => {
            res.push(ReceiverEvent::FixUpdate { fix_type });
        },
        None => {},
    }
    res.push(ReceiverEvent::StatusUpdate { satellites: r.satellites });
    assert(res@ =~= events_for(*r));
    res
}


/// Whether a sentence goes to the receiver's parser: it starts with `$`.
pub open spec fn goes_to_receiver(sentence: Seq<char>) -> bool {
    sentence.len() > 0 && sentence[0] == '$'
}

/// Whether a sentence goes to the GST reader: it holds `GST`.
pub open spec fn goes_to_gst(sentence: Seq<char>) -> bool {
    has_substring(sentence, "GST"@)
}

/// What one sentence of a batch gave: the sentence, what the receiver's state showed after
/// it accepted the sentence (`None` when it was not given the sentence or refused it), and
/// the accuracy read from it (`None` when none was read).
pub struct SentenceOutcome<C, M, F, A> {
    pub sentence: String,
    pub reading: Option<ReceiverReading<C, M, F>>,
    pub accuracy: Option<A>,
}

/// The mathematical value of a sentence's outcome.
pub open spec fn outcome_view<C, M, F, A>(o: SentenceOutcome<C, M, F, A>) -> (
    Seq<char>,
    Option<ReceiverReading<C, M, F>>,
    Option<A>,
) {
    (o.sentence@, o.reading, o.accuracy)
}

/// The status after one sentence: its reading is absorbed when the sentence goes to the
/// receiver and was accepted; its accuracy is taken when the sentence goes to the GST reader
/// and one was read.
pub open spec fn after_sentence<C, M, F, A>(
    s: LiveStatus<C, M, F, A>,
    sentence: Seq<char>,
    reading: Option<ReceiverReading<C, M, F>>,
    accuracy: Option<A>,
) -> LiveStatus<C, M, F, A> {
    let s1 = if goes_to_receiver(sentence) && reading is Some {
        absorbed(s, reading->0)
    } else {
        s
    };
    if goes_to_gst(sentence) {
        LiveStatus { accuracy: newer(s1.accuracy, accuracy), ..s1 }
    } else {
        s1
    }
}

/// The status after the sentences of a batch, in order.
pub open spec fn after_batch<C, M, F, A>(
    s: LiveStatus<C, M, F, A>,
    steps: Seq<(Seq<char>, Option<ReceiverReading<C, M, F>>, Option<A>)>,
) -> LiveStatus<C, M, F, A>
    decreases steps.len(),
{
    if steps.len() == 0 {
        s
    } else {
        let last = steps.last();
        after_sentence(after_batch(s, steps.drop_last()), last.0, last.1, last.2)
    }
}

impl<C: Copy, M: Copy, F: Copy, A: Copy> LiveStatus<C, M, F, A> {
    /// The status after the sentences of a batch, from this one.
    pub fn after_outcomes(self, outcomes: Vec<SentenceOutcome<C, M, F, A>>) -> (res: Self)
        ensures
            res == after_batch(
                self,
                outcomes@.map_values(|o: SentenceOutcome<C, M, F, A>| outcome_view(o)),
            ),
    {
        let ghost steps = outcomes@.map_values(|o: SentenceOutcome<C, M, F, A>| outcome_view(o));
        let n = outcomes.len();
        let mut rest = outcomes;
        let mut status = self;
        let mut i: usize = 0;
        while i < n
            invariant
                i <= n,
                n == steps.len(),
                rest@.len() == n - i,
                rest@.map_values(|o: SentenceOutcome<C, M, F, A>| outcome_view(o)) == steps.skip(
                    i as int,
                ),
                status == after_batch(self, steps.take(i as int)),
            decreases n - i,
        {
            let ghost before = rest@;
            assert(before.map_values(|o: SentenceOutcome<C, M, F, A>| outcome_view(o))[0]
                == outcome_view(before[0]));
            let o = rest.remove(0);
            proof {
                assert(steps.skip(i as int)[0] == outcome_view(o));
                assert(steps.skip(i + 1) =~= steps.skip(i as int).drop_first());
                assert(rest@.map_values(|o: SentenceOutcome<C, M, F, A>| outcome_view(o))
                    =~= steps.skip(i + 1));
                assert(steps.take(i + 1).drop_last() =~= steps.take(i as int));
                assert(steps.take(i + 1).last() == outcome_view(o));
            }
            let route = route_sentence(o.sentence.as_str());
            if route.to_receiver {
                match o.reading {
                    Some(r) => {
                        status = status.absorb(r);
                    },
                    None => {},
                }
            }
            if route.to_gst {
                status = status.with_accuracy(o.accuracy);
            }
            i = i + 1;
        }
        assert(steps.take(n as int) =~= steps);
        status
    }
}

/// A batch read in two parts ends where it ends read in one.
pub proof fn law_batch_in_parts<C, M, F, A>(
    s: LiveStatus<C, M, F, A>,
    a: Seq<(Seq<char>, Option<ReceiverReading<C, M, F>>, Option<A>)>,
    b: Seq<(Seq<char>, Option<ReceiverReading<C, M, F>>, Option<A>)>,
)
    ensures
        after_batch(s, a + b) == after_batch(after_batch(s, a), b),
    decreases b.len(),
{
    if b.len() == 0 {
        assert(a + b =~= a);
    } else {
        assert((a + b).drop_last() =~= a + b.drop_last());
        assert((a + b).last() == b.last());
        law_batch_in_parts(s, a, b.drop_last());
    }
}

/// Position, altitude, speed, fix kind and accuracy, once known, stay known whatever
/// sentences follow.
pub proof fn law_known_fields_stay_known<C, M, F, A>(
    s: LiveStatus<C, M, F, A>,
    a: Seq<(Seq<char>, Option<ReceiverReading<C, M, F>>, Option<A>)>,
    b: Seq<(Seq<char>, Option<ReceiverReading<C, M, F>>, Option<A>)>,
)
    ensures
        after_batch(s, a).latitude is Some ==> after_batch(s, a + b).latitude is Some,
        after_batch(s, a).longitude is Some ==> after_batch(s, a + b).longitude is Some,
        after_batch(s, a).altitude is Some ==> after_batch(s, a + b).altitude is Some,
        after_batch(s, a).speed_over_ground is Some ==> after_batch(
            s,
            a + b,
        ).speed_over_ground is Some,
        after_batch(s, a).fix_type is Some ==> after_batch(s, a + b).fix_type is Some,
        after_batch(s, a).accuracy is Some ==> after_batch(s, a + b).accuracy is Some,
    decreases b.len(),
{
    law_batch_in_parts(s, a, b);
    lemma_known_fields_stay_known(after_batch(s, a), b);
}

proof fn lemma_known_fields_stay_known<C, M, F, A>(
    s: LiveStatus<C, M, F, A>,
    b: Seq<(Seq<char>, Option<ReceiverReading<C, M, F>>, Option<A>)>,
)
    ensures
        s.latitude is Some ==> after_batch(s, b).latitude is Some,
        s.longitude is Some ==> after_batch(s, b).longitude is Some,
        s.altitude is Some ==> after_batch(s, b).altitude is Some,
        s.speed_over_ground is Some ==> after_batch(s, b).speed_over_ground is Some,
        s.fix_type is Some ==> after_batch(s, b).fix_type is Some,
        s.accuracy is Some ==> after_batch(s, b).accuracy is Some,
    decreases b.len(),
{
    if b.len() > 0 {
        lemma_known_fields_stay_known(s, b.drop_last());
    }
}

/// The accuracy read from the last sentence of the batch that goes to the GST reader and
/// gave one, if any.
pub open spec fn last_accuracy<C, M, F, A>(
    steps: Seq<(Seq<char>, Option<ReceiverReading<C, M, F>>, Option<A>)>,
) -> Option<A>
    decreases steps.len(),
{
    if steps.len() == 0 {
        None
    } else if goes_to_gst(steps.last().0) && steps.last().2 is Some {
        steps.last().2
    } else {
        last_accuracy(steps.drop_last())
    }
}

/// The accuracy after a batch is the last one read from it, or the one before the batch when
/// none was read.
pub proof fn law_accuracy_is_the_last_read<C, M, F, A>(
    s: LiveStatus<C, M, F, A>,
    steps: Seq<(Seq<char>, Option<ReceiverReading<C, M, F>>, Option<A>)>,
)
    ensures
        after_batch(s, steps).accuracy == newer(s.accuracy, last_accuracy(steps)),
    decreases steps.len(),
{
    if steps.len() > 0 {
        law_accuracy_is_the_last_read(s, steps.drop_last());
    }
}

/// The sentences of a batch that go anywhere: those that start with `$` or hold `GST`.
pub open spec fn routed_steps<C, M, F, A>(
    steps: Seq<(Seq<char>, Option<ReceiverReading<C, M, F>>, Option<A>)>,
) -> Seq<(Seq<char>, Option<ReceiverReading<C, M, F>>, Option<A>)>
    decreases steps.len(),
{
    if steps.len() == 0 {
        seq![]
    } else if goes_to_receiver(steps.last().0) || goes_to_gst(steps.last().0) {
        routed_steps(steps.drop_last()).push(steps.last())
    } else {
        routed_steps(steps.drop_last())
    }
}

/// Sentences that neither start with `$` nor hold `GST` change nothing, wherever they stand
/// in the batch and whatever was recorded for them.
pub proof fn law_unrouted_sentences_change_nothing<C, M, F, A>(
    s: LiveStatus<C, M, F, A>,
    steps: Seq<(Seq<char>, Option<ReceiverReading<C, M, F>>, Option<A>)>,
)
    ensures
        after_batch(s, steps) == after_batch(s, routed_steps(steps)),
    decreases steps.len(),
{
    if steps.len() > 0 {
        law_unrouted_sentences_change_nothing(s, steps.drop_last());
        let r = routed_steps(steps.drop_last());
        if goes_to_receiver(steps.last().0) || goes_to_gst(steps.last().0) {
            assert(r.push(steps.last()).drop_last() =~= r);
        }
    }
}


/// A reading sets every field it carries: the position when it has both coordinates, the
/// altitude, speed and fix kind when it has them (the newest value wins), and always the
/// satellite counts and dilutions; what it lacks keeps its earlier value, and the accuracy is
/// not touched.
pub proof fn law_reading_sets_what_it_carries<C, M, F, A>(
    s: LiveStatus<C, M, F, A>,
    r: ReceiverReading<C, M, F>,
)
    ensures
        r.latitude is Some && r.longitude is Some ==> absorbed(s, r).latitude == r.latitude
            && absorbed(s, r).longitude == r.longitude,
        r.altitude is Some ==> absorbed(s, r).altitude == r.altitude,
        r.altitude is None ==> absorbed(s, r).altitude == s.altitude,
        r.speed_over_ground is Some ==> absorbed(s, r).speed_over_ground == r.speed_over_ground,
        r.speed_over_ground is None ==> absorbed(s, r).speed_over_ground == s.speed_over_ground,
        r.fix_type is Some ==> absorbed(s, r).fix_type == r.fix_type,
        r.fix_type is None ==> absorbed(s, r).fix_type == s.fix_type,
        absorbed(s, r).satellites == r.satellites,
        absorbed(s, r).fix_satellites == r.fix_satellites,
        absorbed(s, r).hdop == r.hdop,
        absorbed(s, r).vdop == r.vdop,
        absorbed(s, r).pdop == r.pdop,
        absorbed(s, r).accuracy == s.accuracy,
{
}

/// The altitude read from the last sentence of the batch that went to the receiver, was
/// accepted and showed an altitude, if any.
pub open spec fn last_altitude<C, M, F, A>(
    steps: Seq<(Seq<char>, Option<ReceiverReading<C, M, F>>, Option<A>)>,
) -> Option<M>
    decreases steps.len(),
{
    if steps.len() == 0 {
        None
    } else if goes_to_receiver(steps.last().0) && steps.last().1 is Some
        && steps.last().1->0.altitude is Some {
        steps.last().1->0.altitude
    } else {
        last_altitude(steps.drop_last())
    }
}

/// Over a batch, the altitude is the newest one the receiver showed, or the one before the
/// batch when it showed none.
pub proof fn law_newest_altitude_wins<C, M, F, A>(
    s: LiveStatus<C, M, F, A>,
    steps: Seq<(Seq<char>, Option<ReceiverReading<C, M, F>>, Option<A>)>,
)
    ensures
        after_batch(s, steps).altitude == newer(s.altitude, last_altitude(steps)),
    decreases steps.len(),
{
    if steps.len() > 0 {
        law_newest_altitude_wins(s, steps.drop_last());
    }
}

} // verus!
