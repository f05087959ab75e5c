use bitonic_sorter::bitonic::{sort, sort_by};
use bitonic_sorter::utils::{is_sorted_ascending, is_sorted_descending, new_u32_vec};
use bitonic_sorter::SortOrder::{Ascending, Descending};

#[test]
fn sort_u32_ascending() {
    let mut x: Vec<u32> = vec![10, 30, 11, 20, 4, 330, 21, 110];
    assert_eq!(sort(&mut x, &Ascending), Ok(()));
    assert_eq!(x, vec![4, 10, 11, 20, 21, 30, 110, 330]);
}

#[test]
fn sort_u32_descending() {
    let mut x: Vec<u32> = vec![10, 30, 11, 20, 4, 330, 21, 110];
    assert_eq!(sort(&mut x, &Descending), Ok(()));
    assert_eq!(x, vec![330, 110, 30, 21, 20, 11, 10, 4]);
}

#[test]
fn sort_str_ascending() {
    let mut x = vec!["Rust", "is", "fast", "and", "memory-efficient", "with", "no", "GC"];
    assert_eq!(sort(&mut x, &Ascending), Ok(()));
    assert_eq!(
        x,
        vec!["GC", "Rust", "and", "fast", "is", "memory-efficient", "no", "with"]
    );
}

#[test]
fn sort_str_descending() {
    let mut x = vec!["Rust", "is", "fast", "and", "memory-efficient", "with", "no", "GC"];
    assert_eq!(sort(&mut x, &Descending), Ok(()));
    assert_eq!(
        x,
        vec!["with", "no", "memory-efficient", "is", "fast", "and", "Rust", "GC"]
    );
}

#[test]
fn sort_to_fail() {
    let mut x = vec![10, 30, 11];
    assert!(sort(&mut x, &Ascending).is_err());
}

#[derive(Debug, PartialEq)]
struct Student {
    first_name: String,
    last_name: String,
    age: u8,
}

impl Student {
    fn new(first_name: &str, last_name: &str, age: u8) -> Self {
        Self {
            first_name: first_name.to_string(),
            last_name: last_name.to_string(),
            age,
        }
    }
}

#[test]
fn sort_students_by_age_ascending() {
    let taro = Student::new("Taro", "Yamada", 16);
    let hanako = Student::new("Hanako", "Yamada", 14);
    let kyoko = Student::new("Kyoko", "Ito", 15);
    let ryosuke = Student::new("Ryosuke", "Hayashi", 17);

    let mut x = vec![&taro, &hanako, &kyoko, &ryosuke];
    let expected = vec![&hanako, &kyoko, &taro, &ryosuke];

    assert_eq!(sort_by(&mut x, &|a, b| a.age.cmp(&b.age)), Ok(()));
    assert_eq!(x, expected);
}

#[test]
fn sort_student_by_name_ascending() {
    let taro = Student::new("Taro", "Yamada", 16);
    let hanako = Student::new("Hanako", "Yamada", 16);
    let kyoko = Student::new("Kyoko", "Ito", 16);
    let ryosuke = Student::new("Ryosuke", "Hayashi", 16);

    let mut x = vec![&taro, &hanako, &kyoko, &ryosuke];
    let expected = vec![&ryosuke, &kyoko, &hanako, &taro];

    assert_eq!(
        sort_by(
            &mut x,
            &|a, b| a
                .last_name
                .cmp(&b.last_name)
                .then_with(|| a.first_name.cmp(&b.first_name))
        ),
        Ok(())
    );
    assert_eq!(x, expected);
}

#[test]
fn sort_u32_large() {
    {
        let mut x = new_u32_vec(65536);
        assert_eq!(sort(&mut x, &Ascending), Ok(()));
        assert!(is_sorted_ascending(&x));
    }
    {
        let mut x = new_u32_vec(65536);
        assert_eq!(sort(&mut x, &Descending), Ok(()));
        assert!(is_sorted_descending(&x));
    }
}
