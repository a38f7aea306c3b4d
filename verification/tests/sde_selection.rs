use eve_remap::attributes::Attribute;
use eve_remap::sde::{
    select_implants, select_skills, DogmaAttribute, SdeGroupRow, SdeImplantRow, SdeSkillRow,
    SkillRowFault,
};

fn group(id: u64, category: Option<u64>, name: Option<&str>) -> SdeGroupRow {
    SdeGroupRow { id, category_id: category, name: name.map(|s| s.to_string()) }
}

fn skill(type_id: u64, group_id: Option<u64>, published: bool) -> SdeSkillRow {
    SdeSkillRow {
        type_id,
        group_id,
        published,
        has_dogma: true,
        primary: DogmaAttribute::Known(Attribute::Perception),
        secondary: DogmaAttribute::Known(Attribute::Willpower),
        has_time_constant: true,
    }
}

fn implant(type_id: u64, group_id: Option<u64>, int_bonus: Option<i32>) -> SdeImplantRow {
    SdeImplantRow {
        type_id,
        group_id,
        published: true,
        has_dogma: true,
        intelligence: int_bonus,
        charisma: None,
        perception: None,
        memory: None,
        willpower: None,
    }
}

#[test]
fn skills_of_the_skill_category_sorted_by_id() {
    let groups = vec![group(255, Some(16), Some("Gunnery")), group(7, Some(6), Some("Frigate"))];
    let mut no_dogma = skill(3301, Some(255), true);
    no_dogma.has_dogma = false;
    let rows = vec![
        skill(3310, Some(255), true),
        skill(587, Some(7), true),
        skill(3300, Some(255), true),
        skill(3305, Some(255), false),
        skill(3306, None, true),
        no_dogma,
    ];
    assert_eq!(select_skills(&groups, &rows), Ok(vec![2, 0]));
}

#[test]
fn first_faulty_skill_is_reported() {
    let groups = vec![group(255, Some(16), None)];
    let mut a = skill(10, Some(255), true);
    a.secondary = DogmaAttribute::Unknown;
    let mut b = skill(5, Some(255), true);
    b.primary = DogmaAttribute::Missing;
    let mut unpublished = skill(1, Some(255), false);
    unpublished.has_time_constant = false;
    let rows = vec![unpublished, a, b];
    assert_eq!(select_skills(&groups, &rows), Err((1, SkillRowFault::UnknownSecondary)));
    let mut c = skill(2, Some(255), true);
    c.has_time_constant = false;
    assert_eq!(select_skills(&groups, &[c]), Err((0, SkillRowFault::MissingTimeConstant)));
}

#[test]
fn implants_need_an_implant_group_and_a_bonus() {
    let groups = vec![
        group(300, None, Some("Cyberimplant")),
        group(301, None, Some("Booster")),
        group(302, None, Some("IMPLANTS")),
    ];
    let rows = vec![
        implant(9943, Some(300), Some(3)),
        implant(9000, Some(301), Some(3)),
        implant(9942, Some(302), Some(-1)),
        implant(9941, Some(300), None),
    ];
    assert_eq!(select_implants(&groups, &rows), vec![2, 0]);
}
