use cam_granular::components::label_components;

#[test]
fn separate_regions_are_numbered_in_raster_order() {
    let mask = vec![
        true, false, false, true, //
        true, false, false, true, //
        false, false, true, false,
    ];
    let (labels, count) = label_components(&mask, 4, 3);
    assert_eq!(labels, vec![1, 0, 0, 2, 1, 0, 0, 2, 0, 0, 3, 0]);
    assert_eq!(count, 3);
}

#[test]
fn branches_joining_below_are_one_region() {
    let mask = vec![
        true, false, true, //
        true, true, true,
    ];
    let (labels, count) = label_components(&mask, 3, 2);
    assert_eq!(labels, vec![1, 0, 1, 1, 1, 1]);
    assert_eq!(count, 1);
}

#[test]
fn diagonal_cells_are_not_connected() {
    let mask = vec![
        true, false, //
        false, true,
    ];
    let (labels, count) = label_components(&mask, 2, 2);
    assert_eq!(labels, vec![1, 0, 0, 2]);
    assert_eq!(count, 2);
}

#[test]
fn spiral_needs_several_merges() {
    let mask = vec![
        true, false, true, false, true, //
        true, false, true, false, true, //
        true, true, true, true, true,
    ];
    let (labels, count) = label_components(&mask, 5, 3);
    assert_eq!(count, 1);
    for (i, &m) in mask.iter().enumerate() {
        assert_eq!(labels[i], if m { 1 } else { 0 });
    }
}

#[test]
fn empty_mask_has_no_regions() {
    let (labels, count) = label_components(&vec![false; 6], 3, 2);
    assert_eq!(labels, vec![0; 6]);
    assert_eq!(count, 0);
}
