use heartbeat::absence::Absence;
use heartbeat::beat::Beat;
use heartbeat::device::Device;
use heartbeat::reconcile::{batch, beat, first_timestamp, BatchError};
use heartbeat::watermark::Watermark;

const NOW: i64 = 1_700_000_000;
const DAY: i64 = 86400;

/// An in-memory stand-in for the beat, absence and device tables.
struct Store {
    beats: Vec<Beat>,
    absences: Vec<Absence>,
    device: Device,
    watermark: Watermark,
    next_beat: i64,
    next_absence: i64,
}

impl Store {
    fn new() -> Store {
        Store {
            beats: Vec::new(),
            absences: Vec::new(),
            device: Device {
                id: 1,
                name: "test device".to_string(),
                token: "my_token".to_string(),
                beat_count: 0,
            },
            watermark: Watermark::new(0),
            next_beat: 1,
            next_absence: 1,
        }
    }

    fn insert_beat(&mut self, timestamp: i64) -> Beat {
        let b = Beat {
            id: self.next_beat,
            device: self.device.id,
            timestamp,
        };
        self.next_beat += 1;
        self.beats.push(b);
        b
    }

    fn insert_absence(&mut self, mut a: Absence) {
        a.id = self.next_absence;
        self.next_absence += 1;
        self.absences.push(a);
    }

    fn last_beat(&self) -> Option<Beat> {
        self.beats
            .iter()
            .copied()
            .max_by_key(|b| (b.timestamp, b.id))
    }

    /// The single-arrival path at instant `now`.
    fn arrive(&mut self, now: i64) -> i64 {
        let last = self.last_beat();
        let b = self.insert_beat(now);
        self.device.increase_beat_count(1);
        if let Some(a) = beat(last, &b, &mut self.watermark) {
            self.insert_absence(a);
        }
        now
    }

    /// The batch path.
    fn batch(&mut self, timestamps: Vec<i64>) -> Result<usize, BatchError> {
        let first = first_timestamp(&timestamps)?;
        for t in &timestamps {
            self.insert_beat(*t);
        }
        self.device.increase_beat_count(timestamps.len() as i64);
        let mut window: Vec<Beat> = self
            .beats
            .iter()
            .copied()
            .filter(|b| b.timestamp >= first)
            .collect();
        window.sort_by_key(|b| (b.timestamp, b.id));
        let candidates: Vec<Absence> = self
            .absences
            .iter()
            .copied()
            .filter(|a| a.timestamp > first)
            .collect();
        let plan = batch(&timestamps, &window, candidates, &mut self.watermark)?;
        for d in &plan.deleted {
            self.absences.retain(|a| a.id != d.id);
        }
        for a in plan.created {
            self.insert_absence(a);
        }
        Ok(timestamps.len())
    }
}

#[test]
fn can_create_beats() {
    let mut store = Store::new();
    assert_eq!(0, store.beats.len());
    assert_eq!(0, store.device.beat_count);
    assert_eq!(NOW, store.arrive(NOW));
    assert_eq!(1, store.beats.len());
    assert_eq!(1, store.device.beat_count);
    assert_eq!(0, store.absences.len());
}

#[test]
fn doesnt_create_an_absence_if_under_1h() {
    let mut store = Store::new();
    store.insert_beat(NOW - 10);
    store.insert_beat(NOW - DAY);
    assert_eq!(0, store.absences.len());
    store.arrive(NOW);
    assert_eq!(0, store.absences.len());
}

#[test]
fn creates_an_absence_if_over_1h() {
    let mut store = Store::new();
    store.insert_beat(NOW - DAY);
    assert_eq!(0, store.absences.len());
    store.arrive(NOW);
    assert_eq!(1, store.absences.len());
    assert_eq!(86400, store.watermark.read());
}

#[test]
fn single_arrival_threshold_boundary() {
    let mut store = Store::new();
    store.insert_beat(NOW - 3600);
    store.arrive(NOW);
    assert_eq!(1, store.absences.len());
    assert_eq!(3600, store.absences[0].duration);

    let mut store = Store::new();
    store.insert_beat(NOW - 3599);
    store.arrive(NOW);
    assert_eq!(0, store.absences.len());
    assert_eq!(3599, store.watermark.read());
}

#[test]
fn single_arrival_returns_the_absence() {
    let last = Beat { id: 7, device: 1, timestamp: NOW - 5000 };
    let arrived = Beat { id: 8, device: 1, timestamp: NOW };
    let mut w = Watermark::new(0);
    let a = beat(Some(last), &arrived, &mut w).unwrap();
    assert_eq!(
        a,
        Absence { id: 0, timestamp: NOW, duration: 5000, begin_beat: 7, end_beat: 8 }
    );
    assert_eq!(5000, w.read());

    let mut w = Watermark::new(10);
    assert_eq!(None, beat(None, &arrived, &mut w));
    assert_eq!(10, w.read());
}

#[test]
fn single_arrival_rerun_creates_nothing() {
    let mut store = Store::new();
    store.insert_beat(NOW - 5000);
    store.arrive(NOW);
    assert_eq!(1, store.absences.len());
    assert_eq!(5000, store.absences[0].duration);
    assert_eq!(5000, store.watermark.read());
    store.arrive(NOW);
    assert_eq!(1, store.absences.len());
    assert_eq!(5000, store.watermark.read());
}

#[test]
fn can_create_in_batch() {
    let mut store = Store::new();
    let n = store
        .batch(vec![NOW - 10 * DAY, NOW - 9 * DAY, NOW - 8 * DAY])
        .unwrap();
    assert_eq!(3, n);
    assert_eq!(3, store.beats.len());
}

#[test]
fn creates_absences() {
    let mut store = Store::new();
    store
        .batch(vec![NOW - 10 * DAY, NOW - 9 * DAY, NOW - 8 * DAY])
        .unwrap();
    assert_eq!(2, store.absences.len());
}

#[test]
fn batch_three_days_apart() {
    let mut store = Store::new();
    store
        .batch(vec![NOW - 8 * DAY, NOW - 10 * DAY, NOW - 9 * DAY])
        .unwrap();
    assert_eq!(2, store.absences.len());
    assert!(store.absences.iter().all(|a| a.duration == 86400));
    assert_eq!(3, store.device.beat_count);
    assert_eq!(86400, store.watermark.read());
}

#[test]
fn doesnt_create_duplicated_absences() {
    let mut store = Store::new();
    store.insert_beat(NOW - 5 * DAY);
    store.insert_beat(NOW - 3 * DAY);
    store.insert_absence(Absence {
        id: 0,
        timestamp: NOW - 3 * DAY,
        duration: 5000,
        begin_beat: 1,
        end_beat: 2,
    });
    store.batch(vec![NOW - 10 * DAY, NOW - 9 * DAY]).unwrap();
    // there should be an absence between 10 and 9, 9 and 5, 5 and 3
    assert_eq!(3, store.absences.len());
}

#[test]
fn deletes_interrupted_absences() {
    let mut store = Store::new();
    store.insert_beat(NOW - 5000);
    store.insert_beat(NOW);
    store.insert_absence(Absence {
        id: 0,
        timestamp: NOW,
        duration: 5000,
        begin_beat: 1,
        end_beat: 2,
    });
    store.batch(vec![NOW - 2500]).unwrap();
    assert_eq!(0, store.absences.len());
}

#[test]
fn doesnt_delete_uninterrupted_absences() {
    let mut store = Store::new();
    store.insert_beat(NOW - 5000);
    store.insert_beat(NOW);
    store.insert_absence(Absence {
        id: 0,
        timestamp: NOW,
        duration: 5000,
        begin_beat: 1,
        end_beat: 2,
    });
    store.batch(vec![NOW - 5020]).unwrap();
    assert_eq!(1, store.absences.len());
}

#[test]
fn batch_threshold_boundary() {
    let mut store = Store::new();
    store.batch(vec![NOW - 3600, NOW]).unwrap();
    assert_eq!(1, store.absences.len());

    let mut store = Store::new();
    store.batch(vec![NOW - 3599, NOW]).unwrap();
    assert_eq!(0, store.absences.len());
    assert_eq!(3599, store.watermark.read());
}

#[test]
fn same_batch_twice_adds_nothing() {
    let mut store = Store::new();
    let ts = vec![NOW - 10 * DAY, NOW - 9 * DAY, NOW - 8 * DAY];
    store.batch(ts.clone()).unwrap();
    assert_eq!(2, store.absences.len());
    assert_eq!(86400, store.watermark.read());
    store.batch(ts).unwrap();
    assert_eq!(2, store.absences.len());
    assert_eq!(86400, store.watermark.read());
    assert_eq!(6, store.device.beat_count);
}

#[test]
fn beat_inside_absence_splits_it() {
    let mut store = Store::new();
    store.batch(vec![NOW - 10 * DAY, NOW - 9 * DAY]).unwrap();
    assert_eq!(1, store.absences.len());
    let old_id = store.absences[0].id;
    store
        .batch(vec![NOW - 11 * DAY, NOW - 10 * DAY + DAY / 2])
        .unwrap();
    assert_eq!(3, store.absences.len());
    assert!(store.absences.iter().all(|a| a.id != old_id));
    let mut durations: Vec<i64> = store.absences.iter().map(|a| a.duration).collect();
    durations.sort();
    assert_eq!(vec![DAY / 2, DAY / 2, DAY], durations);
}

#[test]
fn earliest_batch_beat_rebuilds_from_itself() {
    let mut store = Store::new();
    store.batch(vec![NOW - 10 * DAY, NOW - 9 * DAY]).unwrap();
    store.batch(vec![NOW - 10 * DAY + DAY / 2]).unwrap();
    assert_eq!(1, store.absences.len());
    assert_eq!(DAY / 2, store.absences[0].duration);
    assert_eq!(NOW - 9 * DAY, store.absences[0].timestamp);
}

#[test]
fn beat_near_absence_end_leaves_one_gap() {
    let mut store = Store::new();
    store.batch(vec![NOW - 10 * DAY, NOW - 9 * DAY]).unwrap();
    store.batch(vec![NOW - 10 * DAY, NOW - 9 * DAY - 1800]).unwrap();
    assert_eq!(1, store.absences.len());
    assert_eq!(DAY - 1800, store.absences[0].duration);
    assert_eq!(NOW - 9 * DAY - 1800, store.absences[0].timestamp);
}

#[test]
fn empty_batch_is_refused() {
    let mut store = Store::new();
    assert_eq!(Err(BatchError::Empty), store.batch(vec![]));
    assert_eq!(0, store.device.beat_count);
    let mut w = Watermark::new(3);
    assert!(matches!(
        batch(&vec![], &vec![], vec![], &mut w),
        Err(BatchError::Empty)
    ));
    assert_eq!(3, w.read());
}

#[test]
fn first_timestamp_is_minimum() {
    assert_eq!(Ok(4), first_timestamp(&vec![9, 4, 7]));
    assert_eq!(Ok(-3), first_timestamp(&vec![-3]));
    assert_eq!(Err(BatchError::Empty), first_timestamp(&vec![]));
}

#[test]
fn batch_plan_parts() {
    let beats = vec![
        Beat { id: 1, device: 1, timestamp: 0 },
        Beat { id: 3, device: 1, timestamp: 5000 },
        Beat { id: 2, device: 1, timestamp: 10000 },
    ];
    let stale = Absence { id: 9, timestamp: 10000, duration: 10000, begin_beat: 1, end_beat: 2 };
    let other = Absence { id: 8, timestamp: 20000, duration: 4000, begin_beat: 2, end_beat: 4 };
    let mut w = Watermark::new(0);
    let plan = batch(&vec![5000], &beats, vec![stale, other], &mut w).unwrap();
    assert_eq!(plan.deleted, vec![stale]);
    assert_eq!(plan.kept, vec![other]);
    assert_eq!(
        plan.created,
        vec![
            Absence { id: 0, timestamp: 5000, duration: 5000, begin_beat: 1, end_beat: 3 },
            Absence { id: 0, timestamp: 10000, duration: 5000, begin_beat: 3, end_beat: 2 },
        ]
    );
    assert_eq!(5000, w.read());
}
