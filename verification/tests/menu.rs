use flow_synth::menu::{item, sub_menu, Menu, MenuUpdate};

#[test]
fn test_menu() {
    let menu = Menu::new(&[
        item("foo"),
        item("bar"),
        sub_menu("baz", &[item("abc"), item("def"), item("ghi")]),
        sub_menu(
            "baz2",
            &[
                item("abc"),
                sub_menu("def", &[item("xyz"), item("zzz")]),
                item("ghi"),
            ],
        ),
        item("2000"),
    ]);
    assert_eq!(menu.length(), 6);
    assert_eq!(menu.width(), 3);
}

fn nested_menu() -> Menu {
    Menu::new(&[
        item("Printer"),
        sub_menu("More", &[item("Counter"), item("Livecode")]),
    ])
}

#[test]
fn menu_flat_dimensions() {
    let menu = Menu::new(&[item("a"), item("b")]);
    assert_eq!(menu.length(), 2);
    assert_eq!(menu.width(), 1);
    let empty = Menu::new(&[]);
    assert_eq!(empty.length(), 0);
    assert_eq!(empty.width(), 1);
}

#[test]
fn menu_new_copies_items_closed() {
    let menu = nested_menu();
    assert!(!menu.open);
    assert_eq!(menu.items.len(), 2);
    assert_eq!(menu.items[0].label(), "Printer");
    assert!(menu.items[0].sub_menu().is_none());
    let sub = menu.items[1].sub_menu().unwrap();
    assert_eq!(sub.items[1].label(), "Livecode");
    assert!(!sub.open);
}

#[test]
fn menu_nothing_hovered_selects_nothing() {
    let menu = nested_menu();
    assert!(!menu.any_children_hovered());
    assert_eq!(menu.selection(), None);
    assert!(!menu.intersect());
    assert!(matches!(menu.release_update(), MenuUpdate::Unchanged));
}

#[test]
fn menu_hovered_leaf_is_selected() {
    let mut menu = nested_menu();
    menu.items[0].hover = true;
    assert!(menu.any_children_hovered());
    assert_eq!(menu.selection(), Some(vec!["Printer".to_string()]));
    match menu.release_update() {
        MenuUpdate::Select(path) => assert_eq!(path, vec!["Printer".to_string()]),
        _ => panic!("expected a selection"),
    }
}

#[test]
fn menu_hovered_in_open_sub_menu_gives_path() {
    let mut menu = nested_menu();
    {
        let sub = menu.items[1].sub_menu.as_mut().unwrap();
        sub.open = true;
        sub.items[1].hover = true;
    }
    assert!(menu.any_children_hovered());
    assert_eq!(
        menu.selection(),
        Some(vec!["More".to_string(), "Livecode".to_string()])
    );
}

#[test]
fn menu_hover_on_sub_menu_label_selects_empty_path() {
    let mut menu = nested_menu();
    menu.items[1].hover = true;
    assert_eq!(menu.selection(), Some(vec![]));
    assert!(menu.intersect());
    assert!(matches!(menu.release_update(), MenuUpdate::Unchanged));
}

#[test]
fn menu_closed_sub_menu_is_not_walked() {
    let mut menu = nested_menu();
    {
        let sub = menu.items[1].sub_menu.as_mut().unwrap();
        sub.items[0].hover = true;
    }
    assert!(menu.any_children_hovered());
    assert_eq!(menu.selection(), None);
}

#[test]
fn menu_clone_is_equal() {
    let mut menu = nested_menu();
    menu.items[1].hover = true;
    let copy = menu.clone();
    assert!(copy == menu);
}

#[test]
fn menu_sub_menu_dimensions() {
    let menu = nested_menu();
    assert_eq!(menu.length(), 3);
    assert_eq!(menu.width(), 2);
}

#[test]
fn menu_move_onto_sub_menu_item_opens_it() {
    let mut menu = nested_menu();
    // "More" is the second item: its top edge is at 31, its bottom at 63.
    let update = menu.handle_move(1000, 10, 40, 0, 0);
    assert!(matches!(update, MenuUpdate::NeedRender));
    assert!(!menu.items[0].hover);
    assert!(menu.items[1].hover);
    assert_eq!(menu.items[1].hover_time, 1000);
    assert_eq!(menu.items[0].hover_time, 0);
    let sub = menu.items[1].sub_menu().unwrap();
    assert!(sub.open);
    assert!(!sub.items[0].hover);
    assert!(!sub.items[1].hover);
    // resting on the label of an item that opens a sub-menu selects nothing yet
    assert_eq!(menu.selection(), Some(vec![]));
}

#[test]
fn menu_move_without_visible_change_is_unchanged() {
    let mut menu = nested_menu();
    menu.handle_move(1000, 10, 40, 0, 0);
    let update = menu.handle_move(1100, 11, 41, 0, 0);
    assert!(matches!(update, MenuUpdate::Unchanged));
    assert_eq!(menu.items[1].hover_time, 1100);
}

#[test]
fn menu_move_into_open_sub_menu_selects_path() {
    let mut menu = nested_menu();
    menu.handle_move(1000, 10, 40, 0, 0);
    // the sub-menu is drawn from x = 127; "Livecode" is its second item, from y = 62 to 94
    let update = menu.handle_move(1100, 150, 70, 0, 0);
    assert!(matches!(update, MenuUpdate::NeedRender));
    assert!(!menu.items[1].hover);
    let sub = menu.items[1].sub_menu().unwrap();
    assert!(sub.open);
    assert!(sub.items[1].hover);
    assert_eq!(
        menu.selection(),
        Some(vec!["More".to_string(), "Livecode".to_string()])
    );
    match menu.release_update() {
        MenuUpdate::Select(path) => {
            assert_eq!(path, vec!["More".to_string(), "Livecode".to_string()])
        }
        _ => panic!("expected a selection"),
    }
}

#[test]
fn menu_sub_menu_closes_after_timeout() {
    let mut menu = nested_menu();
    menu.handle_move(1000, 10, 40, 0, 0);
    menu.handle_move(1100, 150, 70, 0, 0);
    // leaving the sub-menu: it was hovered a moment ago, so it stays open
    let update = menu.handle_move(2000, 500, 500, 0, 0);
    assert!(matches!(update, MenuUpdate::NeedRender));
    assert_eq!(menu.items[1].hover_time, 2000);
    assert!(menu.items[1].sub_menu().unwrap().open);
    // 250 ms later it closes
    let update = menu.handle_move(2250, 500, 500, 0, 0);
    assert!(matches!(update, MenuUpdate::NeedRender));
    assert!(!menu.items[1].sub_menu().unwrap().open);
    assert_eq!(menu.selection(), None);
}

#[test]
fn menu_move_respects_offset() {
    let mut menu = nested_menu();
    menu.handle_move(0, 210, 215, 200, 200);
    assert!(menu.items[0].hover);
    assert!(!menu.items[1].hover);
    assert_eq!(menu.selection(), Some(vec!["Printer".to_string()]));
    // the item's edges themselves do not count as inside
    let mut edge = nested_menu();
    edge.handle_move(0, 200, 215, 200, 200);
    assert!(!edge.items[0].hover);
}

fn two_sub_menus() -> Menu {
    Menu::new(&[
        sub_menu("A", &[item("a1"), item("a2")]),
        sub_menu("B", &[item("b1")]),
    ])
}

#[test]
fn menu_only_the_latest_sub_menu_is_open() {
    let mut menu = two_sub_menus();
    // onto "A" (rows 0..32), then onto "B" (rows 31..63)
    menu.handle_move(1000, 10, 10, 0, 0);
    assert!(menu.items[0].sub_menu().unwrap().open);
    assert!(!menu.items[1].sub_menu().unwrap().open);
    menu.handle_move(1010, 10, 50, 0, 0);
    assert!(!menu.items[0].sub_menu().unwrap().open);
    assert!(menu.items[1].sub_menu().unwrap().open);
    assert_eq!(menu.items[1].hover_time, 1010);
}

#[test]
fn menu_update_keeps_shape() {
    let mut menu = nested_menu();
    let (length, width) = (menu.length(), menu.width());
    menu.handle_move(1000, 10, 40, 0, 0);
    menu.handle_move(1100, 150, 70, 0, 0);
    assert_eq!(menu.length(), length);
    assert_eq!(menu.width(), width);
    assert_eq!(menu.items[1].label(), "More");
    assert_eq!(menu.items[1].sub_menu().unwrap().items[0].label(), "Counter");
}

#[test]
fn menu_equality_ignores_hover_time() {
    let mut a = nested_menu();
    let b = nested_menu();
    a.items[0].hover_time = 42;
    assert!(a == b);
    a.items[0].hover = true;
    assert!(a != b);
}

#[test]
fn menu_sub_menu_mut_changes_in_place() {
    let mut menu = nested_menu();
    assert!(menu.items[0].sub_menu_mut().is_none());
    menu.items[1].sub_menu_mut().unwrap().open = true;
    assert!(menu.items[1].sub_menu().unwrap().open);
    assert_eq!(menu.items[1].label(), "More");
}

#[test]
fn menu_checked_dimensions_match() {
    let menu = nested_menu();
    assert_eq!(menu.checked_length(), Some(menu.length()));
    assert_eq!(menu.checked_width(), Some(menu.width()));
    let flat = Menu::new(&[item("a"), item("b"), item("c")]);
    assert_eq!(flat.checked_width(), Some(1));
    assert_eq!(flat.checked_length(), Some(3));
}

#[test]
fn menu_new_keeps_hover_times() {
    let mut first = item("a");
    first.hover_time = 7;
    let menu = Menu::new(&[first, item("b")]);
    assert_eq!(menu.items[0].hover_time, 7);
    assert_eq!(menu.items[1].hover_time, 0);
}

#[test]
fn menu_move_checked_refuses_far_coordinates() {
    let mut menu = nested_menu();
    let far: i64 = 1 << 51;
    assert!(matches!(menu.handle_move_checked(1000, far, 40, 0, 0), MenuUpdate::Unchanged));
    assert!(!menu.items[1].hover);
    assert!(matches!(menu.handle_move_checked(1000, 10, 40, 0, 0), MenuUpdate::NeedRender));
    assert!(menu.items[1].hover);
}

#[test]
fn menu_built_fresh_is_unhovered() {
    let menu = Menu::new(&[
        item("a"),
        sub_menu("b", &[item("c"), sub_menu("d", &[item("e")])]),
    ]);
    assert!(!menu.any_children_hovered());
}
