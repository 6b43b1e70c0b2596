use protests::regions::{group_and_sort_regions, sort_by_name, find_parent_name, Region};

fn region(id: i32, name: &str, parent_id: Option<i32>) -> Region {
    Region { id, name: name.to_string(), parent_id }
}

#[test]
fn top_level_regions_keep_their_order() {
    let regions = vec![
        region(2, "Košický", None),
        region(10, "Košice", Some(2)),
        region(1, "Bratislavský", None),
        region(11, "Bratislava", Some(1)),
    ];
    let (parents, _) = group_and_sort_regions(regions);
    assert_eq!(parents, vec![region(2, "Košický", None), region(1, "Bratislavský", None)]);
}

#[test]
fn groups_and_members_are_sorted_by_name() {
    let regions = vec![
        region(2, "Trnavský", None),
        region(1, "Bratislavský", None),
        region(20, "Trnava", Some(2)),
        region(12, "Pezinok", Some(1)),
        region(11, "Malacky", Some(1)),
        region(21, "Galanta", Some(2)),
    ];
    let (_, groups) = group_and_sort_regions(regions);
    assert_eq!(
        groups,
        vec![
            (
                "Bratislavský".to_string(),
                vec![region(11, "Malacky", Some(1)), region(12, "Pezinok", Some(1))],
            ),
            (
                "Trnavský".to_string(),
                vec![region(21, "Galanta", Some(2)), region(20, "Trnava", Some(2))],
            ),
        ]
    );
}

#[test]
fn regions_of_equal_name_keep_their_order() {
    let regions = vec![
        region(1, "A", None),
        region(7, "Nové Mesto", Some(1)),
        region(5, "Lúka", Some(1)),
        region(3, "Nové Mesto", Some(1)),
    ];
    let (_, groups) = group_and_sort_regions(regions);
    assert_eq!(
        groups,
        vec![(
            "A".to_string(),
            vec![
                region(5, "Lúka", Some(1)),
                region(7, "Nové Mesto", Some(1)),
                region(3, "Nové Mesto", Some(1)),
            ],
        )]
    );
}

#[test]
fn parents_of_equal_name_share_a_group() {
    let regions = vec![
        region(1, "Sever", None),
        region(2, "Sever", None),
        region(10, "b", Some(2)),
        region(11, "a", Some(1)),
    ];
    let (parents, groups) = group_and_sort_regions(regions);
    assert_eq!(parents.len(), 2);
    assert_eq!(
        groups,
        vec![("Sever".to_string(), vec![region(11, "a", Some(1)), region(10, "b", Some(2))])]
    );
}

#[test]
fn the_last_parent_with_an_id_names_the_group() {
    let regions = vec![
        region(1, "Old", None),
        region(10, "x", Some(1)),
        region(1, "New", None),
    ];
    let (_, groups) = group_and_sort_regions(regions);
    assert_eq!(groups, vec![("New".to_string(), vec![region(10, "x", Some(1))])]);
}

#[test]
fn no_regions_give_no_groups() {
    let (parents, groups) = group_and_sort_regions(Vec::new());
    assert!(parents.is_empty());
    assert!(groups.is_empty());
}

#[test]
fn names_sort_by_code_point() {
    let v = vec![region(1, "b", None), region(2, "B", None), region(3, "á", None), region(4, "a", None), region(5, "ab", None)];
    let sorted = sort_by_name(&v);
    let names: Vec<&str> = sorted.iter().map(|r| r.name.as_str()).collect();
    assert_eq!(names, vec!["B", "a", "ab", "b", "á"]);
}

#[test]
fn find_parent_name_takes_the_last_top_level_region() {
    let v = vec![region(1, "x", None), region(1, "child", Some(9)), region(1, "y", None)];
    assert_eq!(find_parent_name(&v, 1), Some("y".to_string()));
    assert_eq!(find_parent_name(&v, 9), None);
}

#[test]
fn the_grouping_does_not_depend_on_input_order() {
    let regions = vec![
        region(1, "Bratislavský", None),
        region(2, "Trnavský", None),
        region(11, "Malacky", Some(1)),
        region(20, "Trnava", Some(2)),
        region(12, "Pezinok", Some(1)),
        region(21, "Galanta", Some(2)),
    ];
    let mut reversed = regions.clone();
    reversed.reverse();
    let rotated: Vec<Region> = regions[3..].iter().chain(regions[..3].iter()).cloned().collect();
    let (_, expected) = group_and_sort_regions(regions);
    assert_eq!(group_and_sort_regions(reversed).1, expected);
    assert_eq!(group_and_sort_regions(rotated).1, expected);
}

#[test]
fn an_unreferenced_duplicate_id_does_not_change_the_grouping() {
    let regions = vec![
        region(1, "Bratislavský", None),
        region(7, "Old", None),
        region(11, "Malacky", Some(1)),
        region(7, "New", None),
    ];
    let mut reversed = regions.clone();
    reversed.reverse();
    assert_eq!(group_and_sort_regions(reversed).1, group_and_sort_regions(regions).1);
}
