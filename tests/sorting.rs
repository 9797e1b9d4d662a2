use bitonic_sorter::SortOrder::{Ascending, Descending};
use bitonic_sorter::{
    is_power_of_two, is_sorted_ascending, is_sorted_descending, new_u32_vec, sort, sort_by,
    LengthError,
};

#[derive(Debug, PartialEq)]
struct Student {
    first_name: String,
    last_name: String,
    age: u8,
}

impl Student {
    fn new(first_name: &str, last_name: &str, age: u8) -> Self {
        Self {
            first_name: first_name.to_string(),
            last_name: last_name.to_string(),
            age,
        }
    }
}

#[test]
fn second_sort_u32_ascending() {
    let mut x: Vec<u32> = vec![10, 30, 11, 20, 4, 330, 21, 110];
    assert_eq!(sort(&mut x, &Ascending), Ok(()));
    assert_eq!(x, vec![4, 10, 11, 20, 21, 30, 110, 330]);
}

#[test]
fn second_sort_u32_descending() {
    let mut x: Vec<u32> = vec![10, 30, 11, 20, 4, 330, 21, 110];
    assert_eq!(sort(&mut x, &Descending), Ok(()));
    assert_eq!(x, vec![330, 110, 30, 21, 20, 11, 10, 4]);
}

#[test]
fn second_sort_str_ascending() {
    let mut x = vec!["Rust", "is", "fast", "and", "memory-efficient", "with", "no", "GC"];
    assert_eq!(sort(&mut x, &Ascending), Ok(()));
    assert_eq!(x, vec!["GC", "Rust", "and", "fast", "is", "memory-efficient", "no", "with"]);
}

#[test]
fn second_sort_str_descending() {
    let mut x = vec!["Rust", "is", "fast", "and", "memory-efficient", "with", "no", "GC"];
    assert_eq!(sort(&mut x, &Descending), Ok(()));
    assert_eq!(x, vec!["with", "no", "memory-efficient", "is", "fast", "and", "Rust", "GC"]);
}

#[test]
fn second_sort_to_fail() {
    let mut x = vec![10, 30, 11];
    assert!(sort(&mut x, &Ascending).is_err());
}

#[test]
fn third_sort_u32_ascending() {
    let mut x: Vec<u32> = vec![10, 30, 11, 20, 4, 330, 21, 110];
    assert_eq!(sort(&mut x, &Ascending), Ok(()));
    assert_eq!(x, vec![4, 10, 11, 20, 21, 30, 110, 330]);
}

#[test]
fn third_sort_u32_descending() {
    let mut x: Vec<u32> = vec![10, 30, 11, 20, 4, 330, 21, 110];
    assert_eq!(sort(&mut x, &Descending), Ok(()));
    assert_eq!(x, vec![330, 110, 30, 21, 20, 11, 10, 4]);
}

#[test]
fn third_sort_str_ascending() {
    let mut x = vec!["Rust", "is", "fast", "and", "memory-efficient", "with", "no", "GC"];
    assert_eq!(sort(&mut x, &Ascending), Ok(()));
    assert_eq!(x, vec!["GC", "Rust", "and", "fast", "is", "memory-efficient", "no", "with"]);
}

#[test]
fn third_sort_str_descending() {
    let mut x = vec!["Rust", "is", "fast", "and", "memory-efficient", "with", "no", "GC"];
    assert_eq!(sort(&mut x, &Descending), Ok(()));
    assert_eq!(x, vec!["with", "no", "memory-efficient", "is", "fast", "and", "Rust", "GC"]);
}

#[test]
fn third_sort_to_fail() {
    let mut x = vec![10, 30, 11];
    assert!(sort(&mut x, &Ascending).is_err());
}

#[test]
fn sort_students_by_age_ascending() {
    let taro = Student::new("Taro", "Yamada", 16);
    let hanako = Student::new("Hanako", "Yamada", 14);
    let kyoko = Student::new("Kyoko", "Ito", 15);
    let ryosuke = Student::new("Ryosuke", "Hayashi", 17);

    let mut x = vec![&taro, &hanako, &kyoko, &ryosuke];
    let expected = vec![&hanako, &kyoko, &taro, &ryosuke];

    assert_eq!(sort_by(&mut x, &|a, b| a.age.cmp(&b.age)), Ok(()));
    assert_eq!(x, expected);
}

#[test]
fn sort_students_by_name_ascending() {
    let taro = Student::new("Taro", "Yamada", 16);
    let hanako = Student::new("Hanako", "Yamada", 14);
    let kyoko = Student::new("Kyoko", "Ito", 15);
    let ryosuke = Student::new("Ryosuke", "Hayashi", 17);

    let mut x = vec![&taro, &hanako, &kyoko, &ryosuke];
    let expected = vec![&ryosuke, &kyoko, &hanako, &taro];

    assert_eq!(
        sort_by(&mut x, &|a, b| a
            .last_name
            .cmp(&b.last_name)
            .then_with(|| a.first_name.cmp(&b.first_name))),
        Ok(())
    );
    assert_eq!(x, expected);
}

#[test]
fn sort_u32_large() {
    {
        let mut x = new_u32_vec(65536);
        assert_eq!(sort(&mut x, &Ascending), Ok(()));
        assert!(is_sorted_ascending(&x));
    }
    {
        let mut x = new_u32_vec(65536);
        assert_eq!(sort(&mut x, &Descending), Ok(()));
        assert!(is_sorted_descending(&x));
    }
}

#[test]
fn failure_reports_length_and_leaves_input() {
    let mut x: Vec<u32> = vec![10, 30, 11];
    assert_eq!(sort(&mut x, &Descending), Err(LengthError { len: 3 }));
    assert_eq!(x, vec![10, 30, 11]);

    let mut y: Vec<u32> = vec![5, 4, 3, 2, 1, 0];
    assert_eq!(sort_by(&mut y, &|a: &u32, b: &u32| a.cmp(b)), Err(LengthError { len: 6 }));
    assert_eq!(y, vec![5, 4, 3, 2, 1, 0]);

    let mut empty: Vec<u32> = vec![];
    assert_eq!(sort(&mut empty, &Ascending), Err(LengthError { len: 0 }));
}

#[test]
fn single_element_is_sorted() {
    let mut x: Vec<u32> = vec![7];
    assert_eq!(sort(&mut x, &Descending), Ok(()));
    assert_eq!(x, vec![7]);
}

#[test]
fn two_elements_swap() {
    let mut x: Vec<u32> = vec![9, 2];
    assert_eq!(sort(&mut x, &Ascending), Ok(()));
    assert_eq!(x, vec![2, 9]);
    assert_eq!(sort(&mut x, &Descending), Ok(()));
    assert_eq!(x, vec![9, 2]);
}

#[test]
fn reversed_comparator_mirrors() {
    let input: Vec<u32> = vec![8, 3, 15, 1, 42, 7, 0, 23, 16, 4, 99, 12, 5, 31, 2, 60];
    let mut a = input.clone();
    let mut b = input.clone();
    assert_eq!(sort_by(&mut a, &|p: &u32, q: &u32| p.cmp(q)), Ok(()));
    assert_eq!(sort_by(&mut b, &|p: &u32, q: &u32| q.cmp(p)), Ok(()));
    let mut mirrored = b.clone();
    mirrored.reverse();
    assert_eq!(a, mirrored);
}

#[test]
fn output_is_a_permutation() {
    for n in [1usize, 2, 4, 8, 16, 32, 64, 128] {
        let input = new_u32_vec(n);
        let mut x = input.clone();
        assert_eq!(sort(&mut x, &Ascending), Ok(()));
        let mut expected = input.clone();
        expected.sort();
        assert_eq!(x, expected);
    }
}

#[test]
fn sorted_input_is_unchanged() {
    let input: Vec<u32> = vec![1, 2, 2, 5, 8, 13, 21, 34];
    let mut x = input.clone();
    assert_eq!(sort(&mut x, &Ascending), Ok(()));
    assert_eq!(x, input);

    let falling: Vec<u32> = vec![40, 30, 20, 10];
    let mut y = falling.clone();
    assert_eq!(sort(&mut y, &Descending), Ok(()));
    assert_eq!(y, falling);
}

#[test]
fn duplicates_are_kept() {
    let mut x: Vec<u32> = vec![3, 1, 3, 1, 2, 2, 3, 1];
    assert_eq!(sort(&mut x, &Ascending), Ok(()));
    assert_eq!(x, vec![1, 1, 1, 2, 2, 3, 3, 3]);
}

#[test]
fn largest_values_sort() {
    let mut x: Vec<u32> = vec![u32::MAX, 0, u32::MAX - 1, 1];
    assert_eq!(sort(&mut x, &Descending), Ok(()));
    assert_eq!(x, vec![u32::MAX, u32::MAX - 1, 1, 0]);
}

#[test]
fn powers_of_two() {
    assert!(!is_power_of_two(0));
    assert!(is_power_of_two(1));
    assert!(is_power_of_two(2));
    assert!(!is_power_of_two(3));
    assert!(is_power_of_two(4));
    assert!(!is_power_of_two(6));
    assert!(is_power_of_two(65536));
    assert!(!is_power_of_two(65535));
    assert!(is_power_of_two(1usize << (usize::BITS - 1)));
    assert!(!is_power_of_two(usize::MAX));
}

#[test]
fn sortedness_checks() {
    assert!(is_sorted_ascending::<u32>(&[]));
    assert!(is_sorted_descending::<u32>(&[]));
    assert!(is_sorted_ascending(&[1u32, 1, 2, 9]));
    assert!(!is_sorted_ascending(&[1u32, 3, 2, 9]));
    assert!(is_sorted_descending(&[9u32, 2, 2, 0]));
    assert!(!is_sorted_descending(&[9u32, 2, 3, 0]));
    assert!(is_sorted_ascending(&["a", "b", "c"]));
    assert!(!is_sorted_descending(&["a", "b", "c"]));
}

#[test]
fn seeded_data_is_reproducible() {
    let a = new_u32_vec(100);
    let b = new_u32_vec(100);
    assert_eq!(a.len(), 100);
    assert_eq!(a, b);
    assert!(a.iter().any(|v| *v != a[0]));
    assert_eq!(new_u32_vec(0).len(), 0);
}
