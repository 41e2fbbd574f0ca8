use mctocs_rust::names::{find_first, find_last, get_block_base_name, get_material_name};

#[test]
fn base_name_strips_namespace_and_state() {
    assert_eq!(get_block_base_name("minecraft:oak_slab[type=top]"), "oak_slab");
    assert_eq!(get_block_base_name("minecraft:stone"), "stone");
}

#[test]
fn base_name_without_namespace() {
    assert_eq!(get_block_base_name("stone"), "stone");
    assert_eq!(get_block_base_name("glass_pane[east=true]"), "glass_pane");
}

#[test]
fn base_name_splits_at_first_colon_before_state() {
    assert_eq!(get_block_base_name("a:b:c"), "b:c");
    assert_eq!(get_block_base_name("x[k=a:b]"), "x");
    assert_eq!(get_block_base_name("[x]"), "");
    assert_eq!(get_block_base_name(""), "");
}

#[test]
fn material_name_takes_last_segment() {
    assert_eq!(get_material_name("oak_slab"), "minecraft:oak_slab");
    assert_eq!(get_material_name("mod:thing"), "minecraft:thing");
    assert_eq!(get_material_name("a:b:c"), "minecraft:c");
    assert_eq!(get_material_name(""), "minecraft:");
}

#[test]
fn find_first_and_last() {
    assert_eq!(find_first("a:b:c", ':'), Some(1));
    assert_eq!(find_last("a:b:c", ':'), Some(3));
    assert_eq!(find_first("abc", ':'), None);
    assert_eq!(find_last("", ':'), None);
    assert_eq!(find_first("éa:", ':'), Some(2));
}
