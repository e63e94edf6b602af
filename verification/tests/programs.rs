use rcore_kernel::batch::{context_place, AppManager, APP_SIZE_LIMIT};
use rcore_kernel::link_app::{link_app, strip_extension};

#[test]
fn programs_are_loaded_one_after_the_other() {
    let image: Vec<u8> = (0..100).collect();
    let mut apps = AppManager::new(&[3, 0x1000, 0x100a, 0x100a, 0x1064]);
    assert_eq!(apps.app_info(), vec![(0x1000, 0x100a), (0x100a, 0x100a), (0x100a, 0x1064)]);
    assert_eq!(apps.get_current_app(), 0);
    let area = apps.run_next_app(&image, 0x1000).unwrap();
    assert_eq!(area.len(), APP_SIZE_LIMIT);
    assert_eq!(area[..10], image[..10]);
    assert!(area[10..].iter().all(|b| *b == 0));
    assert_eq!(apps.get_current_app(), 1);
    let area = apps.run_next_app(&image, 0x1000).unwrap();
    assert!(area.iter().all(|b| *b == 0));
    let area = apps.load_app(2, &image, 0x1000);
    assert_eq!(area[..90], image[10..]);
    apps.move_to_next_app();
    assert!(apps.run_next_app(&image, 0x1000).is_none());
    assert_eq!(apps.get_current_app(), 3);
}

#[test]
fn a_large_program_is_loaded_whole() {
    let image = vec![1u8; APP_SIZE_LIMIT + 7];
    let apps = AppManager::new(&[1, 0, (APP_SIZE_LIMIT + 7) as u64]);
    assert_eq!(apps.load_app(0, &image, 0), image);
}

#[test]
fn the_context_lies_at_the_top_of_the_stack() {
    assert_eq!(context_place(0x1000), 0x3000 - 37 * 8);
}

#[test]
fn extensions_are_taken_away() {
    assert_eq!(strip_extension("hello.bin"), Some("hello".to_string()));
    assert_eq!(strip_extension("a.b.c"), Some("a".to_string()));
    assert_eq!(strip_extension(".x"), Some(String::new()));
    assert_eq!(strip_extension("none"), None);
}

#[test]
fn the_link_text_has_every_program() {
    let names = ["b", "a"].map(String::from).to_vec();
    let (text, sorted) = link_app(names, "../bin/");
    assert_eq!(sorted, ["a", "b"].map(String::from).to_vec());
    assert_eq!(
        text,
        "\n    .align 3\n    .section .data\n    .global _num_app\n_num_app:\n    .quad 2\n    \
         .quad app_0_start\n    .quad app_1_start\n    .quad app_1_end\n\n    .section .data\n    \
         .global app_0_start\n    .global app_0_end\napp_0_start:\n    .incbin \"../bin/a.bin\"\n\
         app_0_end:\n\n    .section .data\n    .global app_1_start\n    .global app_1_end\n\
         app_1_start:\n    .incbin \"../bin/b.bin\"\napp_1_end:\n"
    );
    let many: Vec<String> = (0..12).map(|i| format!("p{}", i)).collect();
    let (text, _) = link_app(many, "");
    assert!(text.contains("    .quad 12\n"));
    assert!(text.contains("    .quad app_10_start\n    .quad app_11_start\n    .quad app_11_end\n"));
}
