use cch23::day4::{calculate_strength, compare_reindeer, leader_index, ReindeerStats};
use cch23::day6::count_elfs;

fn deer(name: &str, strength: u32, height: u32, antler: u32, magic: u32, food: &str, candies: u32) -> ReindeerStats {
    ReindeerStats {
        name: name.to_string(),
        strength,
        height,
        antler_width: antler,
        snow_magic_power: magic,
        favorite_food: food.to_string(),
        candies_eaten_yesterday: candies,
    }
}

#[test]
fn strength_is_summed() {
    let herd = vec![
        deer("Dasher", 11, 0, 0, 0, "", 0),
        deer("Dancer", 6, 0, 0, 0, "", 0),
        deer("Prancer", 3, 0, 0, 0, "", 0),
        deer("Vixen", 7, 0, 0, 0, "", 0),
    ];
    assert_eq!(calculate_strength(&herd), 27);
}

#[test]
fn strength_sum_wraps() {
    let herd = vec![deer("A", u32::MAX, 0, 0, 0, "", 0), deer("B", 2, 0, 0, 0, "", 0)];
    assert_eq!(calculate_strength(&herd), 1);
}

#[test]
fn contest_sentences() {
    let herd = vec![
        deer("Dasher", 5, 150, 99, 9001, "hay", 2),
        deer("Dancer", 6, 145, 37, 7775, "grass", 5),
    ];
    // Dasher was the faster one.
    let res = compare_reindeer(&herd, Some(0));
    assert_eq!(res.fastest, "Speeding past the finish line with a strength of 5 is Dasher");
    assert_eq!(res.tallest, "Dasher is standing tall with his 99 cm wide antlers");
    assert_eq!(res.magician, "Dasher could blast you away with a snow magic power of 9001");
    assert_eq!(res.consumer, "Dancer ate lots of candies, but also some grass");
}

#[test]
fn contest_without_winners_uses_defaults() {
    let res = compare_reindeer(&vec![], None);
    assert_eq!(res.fastest, "Speeding past the finish line with a strength of 0 is ");
    assert_eq!(res.tallest, " is standing tall with his 0 cm wide antlers");
    assert_eq!(res.magician, " could blast you away with a snow magic power of 0");
    assert_eq!(res.consumer, " ate lots of candies, but also some ");
}

#[test]
fn leader_is_first_of_the_greatest() {
    assert_eq!(leader_index(&vec![3, 7, 7, 1]), Some(1));
    assert_eq!(leader_index(&vec![0, 0]), None);
    assert_eq!(leader_index(&vec![]), None);
    assert_eq!(leader_index(&vec![0, 2]), Some(1));
}

#[test]
fn elves_counted() {
    let text = "The mischievous elf peeked out from behind the toy workshop,\n      and another elf joined in the festive dance.\n      Look, there is also an elf on that shelf!";
    let occ = count_elfs(text);
    assert_eq!(occ.elf, 4);
}

#[test]
fn elves_on_shelves_counted() {
    let text = "there is an elf on a shelf on an elf.\n      there is also another shelf in Belfast.";
    let occ = count_elfs(text);
    assert_eq!(occ.elf, 5);
    assert_eq!(occ.elf_on_a_shelf, 1);
    assert_eq!(occ.shelf_with_no_elf, 1);
}

#[test]
fn overlapping_elves_on_shelves() {
    let occ = count_elfs("elf on a shelf on a shelf");
    assert_eq!(occ.elf, 3);
    assert_eq!(occ.elf_on_a_shelf, 2);
    assert_eq!(occ.shelf_with_no_elf, 0);
}

#[test]
fn no_elves() {
    let occ = count_elfs("");
    assert_eq!((occ.elf, occ.elf_on_a_shelf, occ.shelf_with_no_elf), (0, 0, 0));
    let occ = count_elfs("shelf shelf");
    assert_eq!((occ.elf, occ.elf_on_a_shelf, occ.shelf_with_no_elf), (2, 0, 2));
}
