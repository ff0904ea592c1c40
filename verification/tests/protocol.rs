use std::collections::BTreeMap;

use cachalot::pages::PagesRange;
use cachalot::{cache_page, load, page_path, try_collect, IdxRange, Step, StoreError};

const DIR: &str = "dir";

struct Disk {
    dir_exists: bool,
    files: BTreeMap<u128, Vec<u128>>,
    asked: Vec<IdxRange>,
}

impl Disk {
    fn new() -> Self {
        Disk {
            dir_exists: false,
            files: BTreeMap::new(),
            asked: Vec::new(),
        }
    }

    fn pages(&self) -> Vec<u128> {
        self.files.keys().copied().collect()
    }

    fn probes<const P: u128>(&self, range: &IdxRange) -> Option<Vec<bool>> {
        if !self.dir_exists {
            return None;
        }
        let mut found = Vec::new();
        let mut pages = PagesRange::<P>::from(range).pages();
        while let Some(page) = pages.next() {
            found.push(self.files.contains_key(&page.page()));
        }
        Some(found)
    }

    fn bounds(range: &IdxRange) -> (u128, u128) {
        match range {
            IdxRange::One(i) => (*i, *i),
            IdxRange::Many(a, b) => (*a, *b),
        }
    }

    fn load<const P: u128>(
        &mut self,
        range: IdxRange,
        producer: &dyn Fn(u128) -> Result<u128, String>,
    ) -> Vec<Result<u128, String>> {
        let probes = self.probes::<P>(&range);
        let steps = load::<P>(&range, probes.as_ref());
        assert_eq!(steps.first() == Some(&Step::CreateDir), !self.dir_exists);

        let mut output = Vec::new();
        let mut stream: Vec<Result<u128, String>> = Vec::new();
        for step in steps {
            match step {
                Step::CreateDir => {
                    assert!(!self.dir_exists);
                    self.dir_exists = true;
                }
                Step::Load(page) => {
                    let file = &self.files[&page.page()];
                    assert_eq!(file.len() as u128, P);
                    let first = page.first() as usize;
                    let last = page.last() as usize;
                    output.extend(file[first..=last].iter().map(|v| Ok(*v)));
                }
                Step::Source(range) => {
                    let (start, end) = Self::bounds(&range);
                    self.asked.push(range);
                    stream = (start..=end).rev().map(|i| producer(i)).collect();
                }
                Step::Cache(page) => {
                    let mut items = Vec::new();
                    while items.len() < page.len() {
                        match stream.pop() {
                            Some(item) => {
                                let stop = item.is_err();
                                items.push(item);
                                if stop {
                                    break;
                                }
                            }
                            None => break,
                        }
                    }
                    let (values, error) = try_collect(items);
                    match error {
                        None => {
                            if let Some(path) = cache_page(DIR, &page, values.len()) {
                                assert_eq!(path, page_path(DIR, &page.page()));
                                self.files.insert(page.page(), values.clone());
                            }
                            output.extend(values.into_iter().map(Ok));
                        }
                        Some(error) => {
                            output.extend(values.into_iter().map(Ok));
                            match error.into_external() {
                                Ok(e) => output.push(Err(e)),
                                Err(_) => unreachable!(),
                            }
                            return output;
                        }
                    }
                }
            }
        }
        output
    }
}

fn identity(i: u128) -> Result<u128, String> {
    Ok(i)
}

fn values(from: u128, to: u128) -> Vec<Result<u128, String>> {
    (from..=to).map(Ok).collect()
}

#[test]
fn single_full_page() {
    let mut disk = Disk::new();
    let output = disk.load::<1024>(IdxRange::Many(0, 1023), &identity);

    assert_eq!(output, values(0, 1023));
    assert_eq!(disk.pages(), vec![0]);
    assert_eq!(disk.files[&0], (0..=1023).collect::<Vec<u128>>());
    assert_eq!(disk.asked, vec![IdxRange::Many(0, 1023)]);
}

#[test]
fn spans_two_pages_partial_tail() {
    let mut disk = Disk::new();
    let first = disk.load::<1024>(IdxRange::Many(0, 1500), &identity);

    assert_eq!(first, values(0, 1500));
    assert!(disk.files.contains_key(&0));
    assert!(!disk.files.contains_key(&1));

    let second = disk.load::<1024>(IdxRange::Many(0, 1500), &identity);
    assert_eq!(first, second);
    assert_eq!(disk.pages(), vec![0]);
    assert_eq!(
        disk.asked,
        vec![IdxRange::Many(0, 1500), IdxRange::Many(1024, 1500)]
    );
}

#[test]
fn partial_head_and_tail_with_full_middle() {
    let mut disk = Disk::new();
    let first = disk.load::<1024>(IdxRange::Many(512, 4095), &identity);

    assert_eq!(first, values(512, 4095));
    assert_eq!(disk.pages(), vec![1, 2, 3]);

    let second = disk.load::<1024>(IdxRange::Many(512, 4095), &identity);
    assert_eq!(second, values(512, 4095));
    assert_eq!(disk.pages(), vec![1, 2, 3]);
    assert_eq!(
        disk.asked,
        vec![IdxRange::Many(512, 4095), IdxRange::Many(512, 1023)]
    );
}

#[test]
fn mixed_cached_and_missing_replay() {
    let mut disk = Disk::new();
    disk.load::<1024>(IdxRange::Many(0, 2047), &identity);
    assert_eq!(disk.pages(), vec![0, 1]);

    let probes = disk.probes::<1024>(&IdxRange::Many(512, 4095));
    assert_eq!(probes, Some(vec![true, true, false, false]));

    let output = disk.load::<1024>(IdxRange::Many(512, 4095), &identity);
    assert_eq!(output, values(512, 4095));
    assert_eq!(disk.pages(), vec![0, 1, 2, 3]);
    assert_eq!(
        disk.asked,
        vec![IdxRange::Many(0, 2047), IdxRange::Many(2048, 4095)]
    );
}

#[test]
fn fallible_error_mid_page() {
    let failing = |i: u128| {
        if i == 2 {
            Err(String::from("E"))
        } else {
            Ok(i)
        }
    };

    let mut disk = Disk::new();
    let output = disk.load::<4>(IdxRange::Many(0, 3), &failing);

    assert_eq!(output, vec![Ok(0), Ok(1), Err(String::from("E"))]);
    assert!(!disk.files.contains_key(&0));

    let retry = disk.load::<4>(IdxRange::Many(0, 3), &identity);
    assert_eq!(retry, values(0, 3));
    assert_eq!(disk.files[&0], vec![0, 1, 2, 3]);
}

#[test]
fn error_in_a_later_page_keeps_the_earlier_pages() {
    let failing = |i: u128| {
        if i == 9 {
            Err(String::from("late"))
        } else {
            Ok(i * 2)
        }
    };

    let mut disk = Disk::new();
    let output = disk.load::<4>(IdxRange::Many(2, 13), &failing);

    let mut expected: Vec<Result<u128, String>> = (2..9).map(|i| Ok(i * 2)).collect();
    expected.push(Err(String::from("late")));
    assert_eq!(output, expected);
    assert_eq!(disk.pages(), vec![1]);
    assert_eq!(disk.files[&1], vec![8, 10, 12, 14]);
}

#[test]
fn created_files_are_the_pages_inside_the_range() {
    for (a, b) in [(0u128, 0u128), (0, 3), (1, 8), (3, 4), (4, 7), (5, 22), (8, 8), (0, 40)] {
        let mut disk = Disk::new();
        let range = IdxRange::new(a, (b - a + 1) as usize).unwrap();
        disk.load::<4>(range, &identity);

        let expected: Vec<u128> = (0..=b / 4 + 1)
            .filter(|p| a <= p * 4 && (p + 1) * 4 - 1 <= b)
            .collect();
        assert_eq!(disk.pages(), expected, "range {}..={}", a, b);
    }
}

#[test]
fn loads_equal_the_producer_whatever_is_cached() {
    let producer = |i: u128| -> Result<u128, String> { Ok(i * i + 1) };
    let expect = |a: u128, b: u128| -> Vec<Result<u128, String>> {
        (a..=b).map(|i| Ok(i * i + 1)).collect()
    };

    let mut disk = Disk::new();
    assert_eq!(disk.load::<5>(IdxRange::Many(7, 23), &producer), expect(7, 23));
    assert_eq!(disk.load::<5>(IdxRange::Many(0, 31), &producer), expect(0, 31));
    assert_eq!(disk.load::<5>(IdxRange::Many(12, 16), &producer), expect(12, 16));
    assert_eq!(disk.load::<5>(IdxRange::One(40), &producer), expect(40, 40));
    assert_eq!(disk.load::<5>(IdxRange::Many(3, 44), &producer), expect(3, 44));
    assert_eq!(disk.pages(), vec![0, 1, 2, 3, 4, 5, 6, 7, 8]);

    for (page, file) in &disk.files {
        let values: Vec<u128> = (page * 5..page * 5 + 5).map(|i| i * i + 1).collect();
        assert_eq!(file, &values);
    }
}

#[test]
fn a_short_producer_never_fills_a_page_file() {
    let page = cachalot::pages::PageRange::<4>::new(0, 0, 3);
    assert_eq!(cache_page(DIR, &page, 3), None);
    assert_eq!(cache_page(DIR, &page, 4), Some(page_path(DIR, &0)));

    let part = cachalot::pages::PageRange::<4>::new(0, 1, 3);
    assert_eq!(cache_page(DIR, &part, 3), None);
}

#[test]
fn only_the_producers_error_is_handed_on() {
    let external: StoreError<u8> = StoreError::External(7);
    assert!(matches!(external.into_external(), Ok(7)));

    let read: StoreError<u8> = StoreError::PageRead(String::from("dir/0"));
    assert!(matches!(
        read.into_external(),
        Err(StoreError::PageRead(path)) if path == "dir/0"
    ));

    let write: StoreError<u8> = StoreError::PageWrite(String::from("dir/1"));
    assert!(matches!(
        write.into_external(),
        Err(StoreError::PageWrite(path)) if path == "dir/1"
    ));

    let denied = || std::io::Error::from(std::io::ErrorKind::PermissionDenied);

    let create: StoreError<u8> = StoreError::FileCreation(denied(), String::from("dir/2"));
    assert!(matches!(
        create.into_external(),
        Err(StoreError::FileCreation(io, path))
            if path == "dir/2" && io.kind() == std::io::ErrorKind::PermissionDenied
    ));

    let open: StoreError<u8> = StoreError::FileOpen(denied(), String::from("dir/3"));
    assert!(matches!(
        open.into_external(),
        Err(StoreError::FileOpen(_, path)) if path == "dir/3"
    ));

    let access: StoreError<u8> = StoreError::PathAccess(denied(), String::from("dir"));
    assert!(matches!(
        access.into_external(),
        Err(StoreError::PathAccess(_, path)) if path == "dir"
    ));
}
