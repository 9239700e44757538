use bevy_prototype_scheduler::{Resources, Schedule, Stage, StageLabel, World};
use std::cell::RefCell;
use std::rc::Rc;

struct StructLabel(u64);

impl StageLabel for StructLabel {
    fn key(&self) -> u64 {
        2 * self.0
    }

    fn id(&self) -> u64 {
        self.key()
    }
}

enum EnumLabel {
    A,
    B,
}

impl StageLabel for EnumLabel {
    fn key(&self) -> u64 {
        match self {
            EnumLabel::A => 1,
            EnumLabel::B => 3,
        }
    }

    fn id(&self) -> u64 {
        self.key()
    }
}

/// A stage that writes its name into a shared log each time it runs.
struct Recorder {
    name: &'static str,
    log: Rc<RefCell<Vec<&'static str>>>,
}

impl Stage for Recorder {
    fn run(&mut self, _: &mut World, _: &mut Resources) {
        self.log.borrow_mut().push(self.name);
    }
}

fn recorder(name: &'static str, log: &Rc<RefCell<Vec<&'static str>>>) -> Recorder {
    Recorder { name, log: log.clone() }
}

fn names(schedule: &Schedule<Recorder>) -> Vec<&'static str> {
    (0..schedule.len()).map(|index| schedule.stage(index).name).collect()
}

#[test]
fn new_schedule_is_empty() {
    let schedule: Schedule<Recorder> = Schedule::new();
    assert_eq!(schedule.len(), 0);
    assert!(schedule.label_keys().is_empty());
    assert!(!schedule.contains(&StructLabel(0)));
    assert_eq!(schedule.stage_index(0), None);
}

#[test]
fn add_appends_in_order() {
    let log = Rc::new(RefCell::new(Vec::new()));
    let mut schedule = Schedule::new();
    schedule.add(StructLabel(0), recorder("zero", &log));
    schedule.add(StructLabel(1), recorder("one", &log));
    schedule.add(EnumLabel::A, recorder("a", &log));
    assert_eq!(names(&schedule), vec!["zero", "one", "a"]);
    assert_eq!(schedule.label_keys(), &vec![0, 2, 1]);
    assert!(schedule.contains(&StructLabel(1)));
    assert!(schedule.contains(&EnumLabel::A));
    assert!(!schedule.contains(&EnumLabel::B));
    assert_eq!(schedule.stage_index(2), Some(1));
}

#[test]
fn stages_inserted_before_and_after_run_in_pipeline_order() {
    let log = Rc::new(RefCell::new(Vec::new()));
    let mut world = World;
    let mut resources = Resources;
    let mut schedule = Schedule::new();
    schedule.add(StructLabel(0), recorder("I am struct label 0", &log));
    schedule.add(StructLabel(1), recorder("I am struct label 1", &log));
    schedule.add_before(&StructLabel(1), EnumLabel::A, recorder("I am enum label A", &log));
    schedule.add_after(&EnumLabel::A, EnumLabel::B, recorder("I am enum label B", &log));
    assert_eq!(schedule.label_keys(), &vec![0, 1, 3, 2]);
    schedule.run(&mut world, &mut resources);
    assert_eq!(
        *log.borrow(),
        vec![
            "I am struct label 0",
            "I am enum label A",
            "I am enum label B",
            "I am struct label 1",
        ]
    );
    assert_eq!(schedule.len(), 4);
    assert_eq!(schedule.label_keys(), &vec![0, 1, 3, 2]);
}

#[test]
fn add_before_first_and_after_last() {
    let log = Rc::new(RefCell::new(Vec::new()));
    let mut schedule = Schedule::new();
    schedule.add(StructLabel(5), recorder("middle", &log));
    schedule.add_before(&StructLabel(5), StructLabel(4), recorder("front", &log));
    schedule.add_after(&StructLabel(5), StructLabel(6), recorder("back", &log));
    assert_eq!(names(&schedule), vec!["front", "middle", "back"]);
    assert_eq!(schedule.label_keys(), &vec![8, 10, 12]);
}

#[test]
fn remove_takes_stage_and_label_out() {
    let log = Rc::new(RefCell::new(Vec::new()));
    let mut schedule = Schedule::new();
    schedule.add(StructLabel(0), recorder("zero", &log));
    schedule.add(StructLabel(1), recorder("one", &log));
    schedule.add(StructLabel(2), recorder("two", &log));
    let removed = schedule.remove(&StructLabel(1));
    assert_eq!(removed.map(|stage| stage.name), Some("one"));
    assert_eq!(names(&schedule), vec!["zero", "two"]);
    assert_eq!(schedule.label_keys(), &vec![0, 4]);
    assert_eq!(schedule.stage_index(4), Some(1));
    assert!(!schedule.contains(&StructLabel(1)));

    // The label is free again.
    schedule.add(StructLabel(1), recorder("one again", &log));
    assert_eq!(names(&schedule), vec!["zero", "two", "one again"]);
}

#[test]
fn remove_of_unknown_label_changes_nothing() {
    let log = Rc::new(RefCell::new(Vec::new()));
    let mut schedule = Schedule::new();
    schedule.add(StructLabel(0), recorder("zero", &log));
    assert!(schedule.remove(&EnumLabel::B).is_none());
    assert_eq!(names(&schedule), vec!["zero"]);
    assert_eq!(schedule.label_keys(), &vec![0]);
}

#[test]
fn stage_mut_changes_the_named_stage_in_place() {
    let log = Rc::new(RefCell::new(Vec::new()));
    let mut world = World;
    let mut resources = Resources;
    let mut schedule = Schedule::new();
    schedule.add(StructLabel(0), recorder("zero", &log));
    schedule.add(EnumLabel::A, recorder("a", &log));
    match schedule.stage_mut(&EnumLabel::A) {
        Some(stage) => stage.name = "changed",
        None => panic!("the label names a stage"),
    }
    assert!(schedule.stage_mut(&EnumLabel::B).is_none());
    assert_eq!(names(&schedule), vec!["zero", "changed"]);
    schedule.run(&mut world, &mut resources);
    assert_eq!(*log.borrow(), vec!["zero", "changed"]);
}

#[test]
fn run_twice_runs_every_stage_twice() {
    let log = Rc::new(RefCell::new(Vec::new()));
    let mut world = World;
    let mut resources = Resources;
    let mut schedule = Schedule::new();
    schedule.add(StructLabel(0), recorder("x", &log));
    schedule.add(StructLabel(1), recorder("y", &log));
    schedule.run(&mut world, &mut resources);
    schedule.run(&mut world, &mut resources);
    assert_eq!(*log.borrow(), vec!["x", "y", "x", "y"]);
}

#[test]
fn default_schedule_is_empty() {
    let schedule: Schedule<Recorder> = Default::default();
    assert_eq!(schedule.len(), 0);
    assert!(schedule.label_keys().is_empty());
}
