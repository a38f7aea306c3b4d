use eve_remap::attributes::{Attribute, BaseAttributes, EffectiveAttributes, ImplantBonuses, ImplantRecord};
use eve_remap::cli::OptimizeArgs;
use eve_remap::esi::{CharacterData, EsTrainedSkill};
use eve_remap::resolve::resolve_attributes;
use eve_remap::report::{format_attrs, format_number, queue_file_text};

#[test]
fn numbers_with_thousands_separators() {
    assert_eq!(format_number(0), "0");
    assert_eq!(format_number(999), "999");
    assert_eq!(format_number(1000), "1,000");
    assert_eq!(format_number(217_300), "217,300");
    assert_eq!(format_number(1_234_567), "1,234,567");
    assert_eq!(format_number(u64::MAX), "18,446,744,073,709,551,615");
}

#[test]
fn attribute_line() {
    let e = EffectiveAttributes { intelligence: 17, charisma: 19, perception: 27, memory: 21, willpower: 18 };
    assert_eq!(format_attrs(&e), "P27/M21/W18/I17/C19");
}

#[test]
fn queue_file_lists_skills_after_header() {
    let text = queue_file_text(&[("Gunnery".to_string(), 3), ("Navigation".to_string(), 1)]);
    assert_eq!(
        text,
        "# Optimized by eve-remap — skill order reordered for attribute locality\nGunnery 3\nNavigation 1\n"
    );
    assert_eq!(
        queue_file_text(&[]),
        "# Optimized by eve-remap — skill order reordered for attribute locality\n"
    );
}

#[test]
fn test_attributes_processing_maps_to_charisma() {
    // ESI's "processing" value is stored as charisma.
    let base = BaseAttributes { intelligence: 12, charisma: 8, perception: 10, memory: 15, willpower: 7 };
    assert_eq!(base.charisma, 8);
    assert_eq!(base.get(Attribute::Charisma), 8);
    assert_eq!(base.total(), 52);
}

fn implant(type_id: u32, bonuses: ImplantBonuses) -> ImplantRecord {
    ImplantRecord { type_id, name: format!("Implant {}", type_id), bonuses }
}

fn only_int(v: i32) -> ImplantBonuses {
    ImplantBonuses { intelligence: v, charisma: 0, perception: 0, memory: 0, willpower: 0 }
}

fn uniform(v: u32) -> BaseAttributes {
    BaseAttributes { intelligence: v, charisma: v, perception: v, memory: v, willpower: v }
}

#[test]
fn effective_attributes_add_active_implants() {
    let implants = vec![implant(5001, only_int(4))];
    let e = EffectiveAttributes::from_base_and_implants(&uniform(17), &[5001], &implants);
    assert_eq!(e, EffectiveAttributes { intelligence: 21, charisma: 17, perception: 17, memory: 17, willpower: 17 });
}

#[test]
fn effective_attributes_count_repeats_skip_unknown_and_allow_negative() {
    let implants = vec![
        implant(5001, only_int(4)),
        implant(7, ImplantBonuses { intelligence: 0, charisma: 0, perception: 0, memory: -2, willpower: 0 }),
        implant(5001, only_int(100)),
    ];
    let e = EffectiveAttributes::from_base_and_implants(&uniform(17), &[5001, 5001, 42, 7], &implants);
    assert_eq!(e.intelligence, 25);
    assert_eq!(e.memory, 15);
    assert_eq!(e.get(Attribute::Charisma), 17);
    assert_eq!(format_attrs(&EffectiveAttributes { intelligence: -3, ..e }), "P17/M15/W17/I-3/C17");
}

fn args(attributes: Option<&str>, implant_bonuses: Option<&str>) -> OptimizeArgs {
    OptimizeArgs {
        character: None,
        queue: None,
        attributes: attributes.map(|s| s.to_string()),
        json: false,
        bonus_remaps: None,
        remap_available: None,
        implant_bonuses: implant_bonuses.map(|s| s.to_string()),
        queue_out: None,
    }
}

fn esi(base: Option<BaseAttributes>, ids: Vec<u32>) -> Option<CharacterData> {
    Some(CharacterData {
        base_attributes: base,
        bonus_remaps: None,
        accrued_remap_cooldown_date: None,
        skill_queue: vec![],
        active_implant_ids: ids,
        trained_skills: vec![],
    })
}

#[test]
fn attribute_resolution_chain() {
    let implants = vec![implant(5001, only_int(4))];
    let (b, label, i) = resolve_attributes(&args(None, None), &esi(Some(uniform(20)), vec![5001]), &implants).unwrap();
    assert_eq!(label, "ESI /attributes/");
    assert_eq!(i, BaseAttributes { intelligence: 4, charisma: 0, perception: 0, memory: 0, willpower: 0 });
    assert_eq!(b, BaseAttributes { intelligence: 16, charisma: 20, perception: 20, memory: 20, willpower: 20 });

    let (b, label, i) = resolve_attributes(&args(Some("27:21:17:17:17"), Some("1:0:0:0:0")), &esi(Some(uniform(20)), vec![5001]), &implants).unwrap();
    assert_eq!(label, "CLI override");
    assert_eq!(b.perception, 27);
    assert_eq!(i.perception, 1);

    let (b, label, _) = resolve_attributes(&args(None, None), &esi(None, vec![]), &implants).unwrap();
    assert_eq!(label, "default (ESI attributes unavailable)");
    assert_eq!(b, uniform(17));

    let (b, label, i) = resolve_attributes(&args(None, None), &None, &implants).unwrap();
    assert_eq!(label, "default");
    assert_eq!((b, i), (uniform(17), uniform(0)));

    assert!(resolve_attributes(&args(None, Some("0:0:0:0:11")), &None, &implants).is_err());
}

#[test]
fn trained_skills_keep_one_level_per_skill() {
    let trained = vec![
        EsTrainedSkill { skill_id: 3300, trained_skill_level: 2 },
        EsTrainedSkill { skill_id: 3301, trained_skill_level: 0 },
        EsTrainedSkill { skill_id: 3302, trained_skill_level: 5 },
        EsTrainedSkill { skill_id: 3300, trained_skill_level: 4 },
    ];
    let d = CharacterData::assemble(None, vec![], &trained, vec![]);
    assert_eq!(d.trained_skills, vec![(3300, 4), (3302, 5)]);
}
