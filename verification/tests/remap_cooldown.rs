use eve_remap::cli::OptimizeArgs;
use eve_remap::esi::CharacterData;
use eve_remap::remap::{bonus_remaps_of, cooldown_offset_secs, remap_start, rfc3339_to_unix, RemapStart};

// 2024-01-01T00:00:00Z
const NOW: u64 = 1_704_067_200;

fn args(remap_available: Option<&str>, bonus_remaps: Option<u32>) -> OptimizeArgs {
    OptimizeArgs {
        character: None,
        queue: None,
        attributes: None,
        json: false,
        bonus_remaps,
        remap_available: remap_available.map(|s| s.to_string()),
        implant_bonuses: None,
        queue_out: None,
    }
}

fn esi(date: Option<&str>, bonus: Option<u32>) -> Option<CharacterData> {
    Some(CharacterData {
        base_attributes: None,
        bonus_remaps: bonus,
        accrued_remap_cooldown_date: date.map(|s| s.to_string()),
        skill_queue: vec![],
        active_implant_ids: vec![],
        trained_skills: vec![],
    })
}

#[test]
fn rfc3339_dates_read_as_unix_time() {
    assert_eq!(rfc3339_to_unix("2024-01-01T00:00:00Z"), Some(NOW as i64));
    assert_eq!(rfc3339_to_unix("2024-01-01T02:00:00+02:00"), Some(NOW as i64));
    assert_eq!(rfc3339_to_unix("tomorrow"), None);
}

#[test]
fn cooldown_in_the_future_past_and_unreadable() {
    let future = Some("2024-01-31T00:00:00Z".to_string());
    assert_eq!(cooldown_offset_secs(&future, NOW), Some(30 * 86_400));
    let past = Some("2023-12-01T00:00:00Z".to_string());
    assert_eq!(cooldown_offset_secs(&past, NOW), Some(0));
    let unreadable = Some("next week".to_string());
    assert_eq!(cooldown_offset_secs(&unreadable, NOW), None);
    assert_eq!(cooldown_offset_secs(&None, NOW), None);
}

#[test]
fn remap_start_prefers_the_flag_then_esi() {
    assert_eq!(
        remap_start(&args(Some("30d"), None), &esi(Some("2024-01-02T00:00:00Z"), None), NOW),
        RemapStart::Given("30d".to_string())
    );
    assert_eq!(
        remap_start(&args(None, None), &esi(Some("2024-01-02T00:00:00Z"), None), NOW),
        RemapStart::InSeconds(86_400)
    );
    assert_eq!(remap_start(&args(None, None), &esi(Some("garbled"), None), NOW), RemapStart::InSeconds(0));
    assert_eq!(remap_start(&args(None, None), &None, NOW), RemapStart::InSeconds(0));
}

#[test]
fn bonus_remaps_prefer_the_flag_then_esi() {
    assert_eq!(bonus_remaps_of(&args(None, Some(2)), &esi(None, Some(1))), Some(2));
    assert_eq!(bonus_remaps_of(&args(None, None), &esi(None, Some(1))), Some(1));
    assert_eq!(bonus_remaps_of(&args(None, None), &None), None);
}
