use eve_remap::attributes::Attribute;
use eve_remap::queue::{parse_queue_line, parse_queue_lines, LineError, LineOutcome, QueueProgress};
use eve_remap::reorder::SkillInfo;

fn info(id: u32, name: &str) -> SkillInfo {
    SkillInfo {
        id,
        name: name.to_string(),
        primary_attribute: Attribute::Intelligence,
        secondary_attribute: Attribute::Memory,
        prerequisites: vec![],
    }
}

fn skills_db() -> Vec<SkillInfo> {
    vec![
        info(1, "Gunnery"),
        info(2, "Navigation"),
        info(3, "Shield Operation"),
        info(4, "Drone Navigation"),
        info(5, "Cargo Hold Loader II"),
        info(6, "Targeting"),
    ]
}

fn entry(o: &LineOutcome) -> (usize, u8, QueueProgress) {
    match o {
        LineOutcome::Entry(q) => (q.skill_index, q.level, q.progress.clone()),
        other => panic!("expected an entry, got {:?}", other),
    }
}

fn error(o: &LineOutcome) -> LineError {
    match o {
        LineOutcome::Invalid(e) => e.clone(),
        other => panic!("expected an error, got {:?}", other),
    }
}

#[test]
fn queue_lines_basic_and_case_insensitive() {
    let db = skills_db();
    let out = parse_queue_lines("Gunnery 3\nnavigation 5\nSHIELD OPERATION 2", &db);
    assert_eq!(out.len(), 3);
    assert_eq!(entry(&out[0]), (0, 3, QueueProgress::Full));
    assert_eq!(entry(&out[1]), (1, 5, QueueProgress::Full));
    assert_eq!(entry(&out[2]), (2, 2, QueueProgress::Full));
    assert_eq!(entry(&parse_queue_line("Cargo Hold Loader II 1", &db)), (4, 1, QueueProgress::Full));
}

#[test]
fn queue_lines_comments_blanks_and_line_endings() {
    let db = skills_db();
    let out = parse_queue_lines("# comment\n\n   \r\nGunnery 1\r\n", &db);
    assert_eq!(out.len(), 4);
    assert!(matches!(out[0], LineOutcome::Blank));
    assert!(matches!(out[1], LineOutcome::Blank));
    assert!(matches!(out[2], LineOutcome::Blank));
    assert_eq!(entry(&out[3]), (0, 1, QueueProgress::Full));
    assert!(parse_queue_lines("", &db).is_empty());
}

#[test]
fn queue_lines_progress_kinds() {
    let db = skills_db();
    assert_eq!(
        entry(&parse_queue_line("Navigation 4@3d12h", &db)),
        (1, 4, QueueProgress::TimeLeft("3d12h".to_string()))
    );
    assert_eq!(
        entry(&parse_queue_line("Navigation 4@ 3d 12h ", &db)),
        (1, 4, QueueProgress::TimeLeft("3d 12h".to_string()))
    );
    assert_eq!(
        entry(&parse_queue_line("Gunnery 2@1,000", &db)),
        (0, 2, QueueProgress::SpTrained("1,000".to_string()))
    );
    assert_eq!(
        entry(&parse_queue_line("Gunnery 2@90s", &db)),
        (0, 2, QueueProgress::TimeLeft("90s".to_string()))
    );
    assert_eq!(
        entry(&parse_queue_line("Gunnery 2@", &db)),
        (0, 2, QueueProgress::SpTrained(String::new()))
    );
}

#[test]
fn queue_lines_documented_progress_forms() {
    let db = skills_db();
    assert_eq!(
        entry(&parse_queue_line("Gunnery 3 @7d", &db)),
        (0, 3, QueueProgress::TimeLeft("7d".to_string()))
    );
    assert_eq!(
        entry(&parse_queue_line("Gunnery 3 @1500 SP", &db)),
        (0, 3, QueueProgress::SpTrained("1500".to_string()))
    );
    assert_eq!(
        entry(&parse_queue_line("Gunnery 3 @12345 SP", &db)),
        (0, 3, QueueProgress::SpTrained("12345".to_string()))
    );
    assert_eq!(
        entry(&parse_queue_line("Gunnery 3@1,000sp", &db)),
        (0, 3, QueueProgress::SpTrained("1,000".to_string()))
    );
    assert_eq!(
        entry(&parse_queue_line("Gunnery 3 @1d", &db)),
        (0, 3, QueueProgress::TimeLeft("1d".to_string()))
    );
    assert_eq!(error(&parse_queue_line("@7d", &db)), LineError::MissingLevel(String::new()));
}

#[test]
fn queue_lines_errors() {
    let db = skills_db();
    assert_eq!(error(&parse_queue_line("Gunnery", &db)), LineError::MissingLevel("Gunnery".to_string()));
    assert_eq!(error(&parse_queue_line("Gunnery x", &db)), LineError::InvalidLevel("x".to_string()));
    assert_eq!(error(&parse_queue_line("Gunnery 0", &db)), LineError::LevelOutOfRange(0));
    assert_eq!(error(&parse_queue_line("Gunnery 6", &db)), LineError::LevelOutOfRange(6));
    assert_eq!(error(&parse_queue_line("Gunnery 300", &db)), LineError::InvalidLevel("300".to_string()));
    assert_eq!(error(&parse_queue_line("Unknown Skill 3", &db)), LineError::UnknownSkill("Unknown Skill".to_string()));
    let out = parse_queue_lines("Gunnery 3\nBogus 2", &db);
    assert_eq!(error(&out[1]), LineError::UnknownSkill("Bogus".to_string()));
}
