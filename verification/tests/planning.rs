use eve_remap::attributes::{Attribute, EffectiveAttributes};
use eve_remap::esi::{EsSkillQueueEntry, QueuedSkill};
use eve_remap::esi_queue::{esi_queue_text, sort_by_queue_position};
use eve_remap::plan::plan_slots;
use eve_remap::queue::{parse_queue_lines, LineOutcome, QueueProgress};
use eve_remap::reorder::{reorder_queue, PlanEntry, SkillInfo};

fn info(id: u32, name: &str, p: Attribute, s: Attribute, prereqs: Vec<(u32, u8)>) -> SkillInfo {
    SkillInfo {
        id,
        name: name.to_string(),
        primary_attribute: p,
        secondary_attribute: s,
        prerequisites: prereqs,
    }
}

fn entry(id: u32, level: u8, prereqs: Vec<(u32, u8)>) -> PlanEntry {
    PlanEntry { skill_id: id, target_level: level, prerequisites: prereqs }
}

fn eff(int: i128, cha: i128, per: i128, mem: i128, wil: i128) -> EffectiveAttributes {
    EffectiveAttributes { intelligence: int, charisma: cha, perception: per, memory: mem, willpower: wil }
}

fn db() -> Vec<SkillInfo> {
    vec![
        info(1, "Gunnery", Attribute::Perception, Attribute::Willpower, vec![]),
        info(2, "Navigation", Attribute::Intelligence, Attribute::Perception, vec![]),
        info(3, "Targeting", Attribute::Charisma, Attribute::Willpower, vec![(1, 3)]),
    ]
}

#[test]
fn prerequisites_train_first() {
    // Targeting needs Gunnery 3, which the queue trains second.
    let entries = vec![
        entry(3, 1, vec![(1, 3)]),
        entry(1, 3, vec![]),
        entry(2, 1, vec![]),
    ];
    let order = reorder_queue(&entries, &db(), &eff(20, 20, 20, 20, 20));
    let pos = |i: usize| order.iter().position(|&x| x == i).unwrap();
    assert_eq!(order.len(), 3);
    assert!(pos(1) < pos(0));
}

#[test]
fn levels_of_one_skill_stay_in_order() {
    let entries = vec![entry(2, 3, vec![]), entry(2, 1, vec![]), entry(2, 2, vec![])];
    let order = reorder_queue(&entries, &db(), &eff(17, 17, 17, 17, 17));
    assert_eq!(order, vec![1, 2, 0]);
}

#[test]
fn fastest_ready_skill_goes_first() {
    // Perception is highest: Gunnery (PER/WIL) outranks Navigation (INT/PER).
    let entries = vec![entry(2, 1, vec![]), entry(1, 1, vec![])];
    let order = reorder_queue(&entries, &db(), &eff(17, 17, 27, 17, 17));
    assert_eq!(order, vec![1, 0]);
    // With intelligence highest the other way round.
    let order = reorder_queue(&entries, &db(), &eff(27, 17, 17, 17, 17));
    assert_eq!(order, vec![0, 1]);
}

#[test]
fn ties_go_to_the_last_ready_entry() {
    let entries = vec![entry(1, 1, vec![]), entry(1, 1, vec![])];
    // Same skill twice at the same level: the earlier entry trains first.
    let order = reorder_queue(&entries, &db(), &eff(17, 17, 17, 17, 17));
    assert_eq!(order, vec![0, 1]);
}

#[test]
fn cycles_are_appended_in_queue_order() {
    let cyc = vec![
        info(10, "A", Attribute::Memory, Attribute::Charisma, vec![(11, 1)]),
        info(11, "B", Attribute::Memory, Attribute::Charisma, vec![(10, 1)]),
        info(12, "C", Attribute::Memory, Attribute::Charisma, vec![]),
    ];
    let entries = vec![entry(10, 1, vec![(11, 1)]), entry(11, 1, vec![(10, 1)]), entry(12, 1, vec![])];
    let order = reorder_queue(&entries, &cyc, &eff(17, 17, 17, 17, 17));
    assert_eq!(order, vec![2, 0, 1]);
}

#[test]
fn empty_and_single_queues() {
    assert!(reorder_queue(&[], &db(), &eff(17, 17, 17, 17, 17)).is_empty());
    assert_eq!(reorder_queue(&[entry(9, 1, vec![])], &[], &eff(17, 17, 17, 17, 17)), vec![0]);
}

#[test]
fn plan_takes_known_skills_below_five() {
    let queued = vec![
        QueuedSkill { id: 1, level: 2, duration: 0, remaining_sec: 0 },
        QueuedSkill { id: 99, level: 1, duration: 0, remaining_sec: 0 },
        QueuedSkill { id: 2, level: 5, duration: 0, remaining_sec: 0 },
        QueuedSkill { id: 3, level: 0, duration: 0, remaining_sec: 0 },
    ];
    let slots = plan_slots(&queued, &db());
    assert_eq!(slots.len(), 2);
    assert_eq!((slots[0].queued_index, slots[0].record_index), (0, 0));
    assert_eq!(slots[0].entry.target_level, 3);
    assert_eq!((slots[1].queued_index, slots[1].record_index), (3, 2));
    assert_eq!(slots[1].entry.prerequisites, vec![(1, 3)]);
}

fn qe(skill: i32, level: i32, pos: i32, start: i64, trained: i64) -> EsSkillQueueEntry {
    EsSkillQueueEntry {
        skill_id: skill,
        finished_level: level,
        queue_position: pos,
        level_start_sp: start,
        training_start_sp: trained,
        level_end_sp: start + 1000,
        start_date: None,
        finish_date: None,
    }
}

#[test]
fn esi_queue_renders_in_position_order() {
    let queue = vec![qe(2, 1, 2, 0, 0), qe(1, 3, 0, 1414, 2000), qe(3, 6, 1, 0, 0), qe(3, 2, 2, 250, 250)];
    assert_eq!(sort_by_queue_position(&queue), vec![1, 2, 0, 3]);
    let text = esi_queue_text(&queue, &db()).unwrap();
    assert_eq!(text, "Gunnery 3@2000\nNavigation 1\nTargeting 2");
}

#[test]
fn esi_queue_unknown_skill_is_reported() {
    let queue = vec![qe(1, 1, 0, 0, 0), qe(77, 2, 1, 0, 0)];
    assert_eq!(esi_queue_text(&queue, &db()), Err(77));
    assert_eq!(esi_queue_text(&[], &db()), Ok(String::new()));
}

#[test]
fn esi_queue_text_reads_back_as_queue_lines() {
    let queue = vec![qe(2, 1, 2, 0, 0), qe(1, 3, 0, 1414, 2000), qe(3, 2, 1, 250, 250)];
    let text = esi_queue_text(&queue, &db()).unwrap();
    let infos = db();
    let lines = parse_queue_lines(&text, &infos);
    let read: Vec<(usize, u8, QueueProgress)> = lines
        .iter()
        .map(|o| match o {
            LineOutcome::Entry(q) => (q.skill_index, q.level, q.progress.clone()),
            other => panic!("unexpected {:?}", other),
        })
        .collect();
    assert_eq!(
        read,
        vec![
            (0, 3, QueueProgress::SpTrained("2000".to_string())),
            (2, 2, QueueProgress::Full),
            (1, 1, QueueProgress::Full),
        ]
    );
}

#[test]
fn equal_scores_take_the_last_ready_entry() {
    let twins = vec![
        info(20, "Alpha", Attribute::Memory, Attribute::Intelligence, vec![]),
        info(21, "Beta", Attribute::Memory, Attribute::Intelligence, vec![]),
        info(22, "Gamma", Attribute::Memory, Attribute::Intelligence, vec![]),
    ];
    let entries = vec![entry(20, 1, vec![]), entry(21, 1, vec![]), entry(22, 1, vec![])];
    let order = reorder_queue(&entries, &twins, &eff(17, 17, 17, 17, 17));
    // All ready from the start and scoring alike: the highest index first,
    // then the entry sharing attributes with it that is last in the ready list.
    assert_eq!(order, vec![2, 1, 0]);
}
