use std::any::TypeId;
use std::hash::{BuildHasher, Hash, Hasher};
use std::mem::size_of;

use ahash::{AHasher, RandomState};
use vstd::prelude::*;

use crate::config::TypedConfig;
use crate::idx_range::IdxRange;
use crate::pages::{PageGroup, PageRange, PageSlice, PagesIter, PagesRange};
use crate::Idx;

pub mod loader;
pub mod replay;
pub mod store;
pub mod store_pages;
pub mod try_replay;
pub mod try_store;

pub use loader::{Action, Loader};
pub use store::{load, load_or_cache, route, Route};
pub use store_pages::{accumulate, store_pages_range, PartialAccumulator, StorePages};
pub use try_store::try_collect;

verus! {

/// The four seeds of the hasher that names the cache directories. They never
/// change, so that a directory is found again by a later build.
pub const SEED_0: u64 = 2858199611238995053;

pub const SEED_1: u64 = 11086922458483105823;

pub const SEED_2: u64 = 15118288254885688199;

pub const SEED_3: u64 = 573726014207964826;

/// The character that stands for the digit `d`.
pub open spec fn digit(d: nat) -> char {
    if d == 0 {
        '0'
    } else if d == 1 {
        '1'
    } else if d == 2 {
        '2'
    } else if d == 3 {
        '3'
    } else if d == 4 {
        '4'
    } else if d == 5 {
        '5'
    } else if d == 6 {
        '6'
    } else if d == 7 {
        '7'
    } else if d == 8 {
        '8'
    } else {
        '9'
    }
}

/// The number `n` in base 10, without padding.
pub open spec fn decimal(n: nat) -> Seq<char>
    decreases n,
{
    if n < 10 {
        seq![digit(n)]
    } else {
        decimal(n / 10).push(digit(n % 10))
    }
}

/// The text of one digit.
fn digit_text(d: u128) -> (text: &'static str)
    requires
        d < 10,
    ensures
        text@ == seq![digit(d as nat)],
{
    proof {
        reveal_strlit("0");
        reveal_strlit("1");
        reveal_strlit("2");
        reveal_strlit("3");
        reveal_strlit("4");
        reveal_strlit("5");
        reveal_strlit("6");
        reveal_strlit("7");
        reveal_strlit("8");
        reveal_strlit("9");
    }
    let text: &'static str = if d == 0 {
        "0"
    } else if d == 1 {
        "1"
    } else if d == 2 {
        "2"
    } else if d == 3 {
        "3"
    } else if d == 4 {
        "4"
    } else if d == 5 {
        "5"
    } else if d == 6 {
        "6"
    } else if d == 7 {
        "7"
    } else if d == 8 {
        "8"
    } else {
        "9"
    };
    assert(text@ =~= seq![digit(d as nat)]);
    text
}

/// Writes `n` in base 10, without padding.
pub fn to_decimal(n: u128) -> (text: String)
    ensures
        text@ == decimal(n as nat),
{
    let mut text: String = digit_text(n % 10).to_owned();
    let mut rest: u128 = n / 10;
    while rest > 0
        invariant
            decimal(n as nat) == (if rest == 0 {
                text@
            } else {
                decimal(rest as nat) + text@
            }),
        decreases rest,
    {
        let ghost tail = text@;
        text = digit_text(rest % 10).to_owned().concat(text.as_str());
        proof {
            let head = seq![digit((rest % 10) as nat)];
            assert(text@ == head + tail);
            if rest >= 10 {
                assert(decimal((rest / 10) as nat).push(digit((rest % 10) as nat)) + tail
                    =~= decimal((rest / 10) as nat) + (head + tail));
            }
        }
        rest = rest / 10;
    }
    text
}

/// What `Path::join` makes of a directory and a name, both given as text, on
/// the platform that the library is built for.
pub uninterp spec fn joined_path(dir: Seq<char>, name: Seq<char>) -> Seq<char>;

/// `std::path::Path::join`: the path of `name` inside `dir`. Both are text,
/// and so is the path that comes back.
#[verifier::external_body]
fn path_join(dir: &str, name: &str) -> (path: String)
    ensures
        path@ == joined_path(dir@, name@),
{
    std::path::Path::new(dir).join(name).to_string_lossy().into_owned()
}

/// The file of page `page` in the cache directory `dir`: the directory joined
/// with the page's number in base 10.
pub fn page_path(dir: &str, page: &Idx) -> (path: String)
    ensures
        path@ == joined_path(dir@, decimal(*page as nat)),
{
    let name: String = to_decimal(*page);
    path_join(dir, name.as_str())
}

/// The cache directory under `root` that the digest `digest` names: the root
/// joined with the digest in base 10.
pub fn digest_dir(root: &str, digest: u64) -> (dir: String)
    ensures
        dir@ == joined_path(root@, decimal(digest as nat)),
{
    let name: String = to_decimal(digest as u128);
    path_join(root, name.as_str())
}

/// `ahash::RandomState`: a factory of hashers. Nothing is known of what it
/// holds.
#[verifier::external_type_specification]
#[verifier::external_body]
pub struct ExSeededState(RandomState);

/// `ahash::AHasher`: a hasher. Nothing is known of what it holds.
#[verifier::external_type_specification]
#[verifier::external_body]
pub struct ExSeededHasher(AHasher);

/// `std::any::TypeId`: the identifier of a type. Nothing is known of what it
/// holds.
#[verifier::external_type_specification]
#[verifier::external_body]
pub struct ExTypeId(TypeId);

/// `ahash::RandomState::with_seeds`: a hasher factory made from four seeds.
/// Nothing is claimed of it.
pub assume_specification[ RandomState::with_seeds ](k0: u64, k1: u64, k2: u64, k3: u64) -> (state:
    RandomState)
;

/// `BuildHasher::build_hasher` of `ahash::RandomState`: a fresh hasher.
/// Nothing is claimed of it.
pub assume_specification[ <RandomState as BuildHasher>::build_hasher ](
    state: &RandomState,
) -> (hasher: AHasher)
;

/// `Hasher::finish` of `ahash::AHasher`: the digest of what the hasher was
/// fed. Nothing is claimed of its value, which differs between platforms.
pub assume_specification[ <AHasher as Hasher>::finish ](hasher: &AHasher) -> (digest: u64)
;

/// `std::any::TypeId::of`: the identifier of a type. Nothing is claimed of it.
pub assume_specification<T: ?Sized + 'static>[ TypeId::of::<T> ]() -> (id: TypeId)
;

/// `Hash::hash`: feeds `value` to the hasher. Nothing is claimed of the
/// hasher afterwards.
#[verifier::external_body]
fn feed<T: Hash>(hasher: &mut AHasher, value: &T) {
    value.hash(hasher)
}

/// The digest that names the cache directory of `k`: the hasher with the
/// fixed seeds is fed the identity of the configuration's type, the size of
/// a value, and the key, in this order.
fn key_digest<K: Hash, V: 'static, const PAGE_SIZE: u128>(k: K) -> (digest: u64) {
    let state: RandomState = RandomState::with_seeds(SEED_0, SEED_1, SEED_2, SEED_3);
    let mut hasher: AHasher = state.build_hasher();
    let id: TypeId = TypeId::of::<TypedConfig<V, PAGE_SIZE>>();
    feed(&mut hasher, &id);
    let size: usize = size_of::<V>();
    feed(&mut hasher, &size);
    feed(&mut hasher, &k);
    hasher.finish()
}

/// The cache directory of the key `k` under the configuration's root: the
/// root joined with the key's digest in base 10.
pub fn pages_dir<K: Hash, V: 'static, const PAGE_SIZE: u128>(
    k: K,
    config: &TypedConfig<V, PAGE_SIZE>,
) -> (dir: String)
    ensures
        exists|digest: u64| dir@ == joined_path(config.config.root@, decimal(digest as nat)),
{
    let digest: u64 = key_digest::<K, V, PAGE_SIZE>(k);
    digest_dir(config.config.root.as_str(), digest)
}

/// `std::io::Error`: an error of the operating system. It is carried
/// through; nothing is known of what it holds.
#[verifier::external_type_specification]
#[verifier::external_body]
pub struct ExIoError(std::io::Error);

/// What can go wrong while pages are read or written. The first five say
/// that the disk failed; `External` carries an error of the producer.
#[derive(Debug)]
pub enum StoreError<E = ()> {
    FileCreation(std::io::Error, String),
    FileOpen(std::io::Error, String),
    PageWrite(String),
    PageRead(String),
    PathAccess(std::io::Error, String),
    External(E),
}

impl<E> StoreError<E> {
    /// The producer's error, if this is one; else the error itself, unchanged.
    pub fn into_external(self) -> (res: Result<E, Self>)
        ensures
            match self {
                StoreError::External(e) => res == Ok::<E, Self>(e),
                _ => res == Err::<E, Self>(self),
            },
    {
        match self {
            StoreError::External(e) => Ok(e),
            other => Err(other),
        }
    }
}

/// What to read of a page file: `len` values, which are `byte_len` bytes,
/// from the byte `offset` on.
#[derive(Debug, PartialEq)]
pub struct PageRead {
    pub path: String,
    pub offset: u64,
    pub len: usize,
    pub byte_len: usize,
}

/// How to read the slice `page` from the file `page_path`, whose values take
/// `value_size` bytes each: from the byte `first * value_size` on, as many
/// values as the slice holds, which are `len * value_size` bytes.
pub fn load_page<const PAGE_SIZE: u128>(
    page_path: String,
    page: &PageRange<PAGE_SIZE>,
    value_size: usize,
) -> (read: PageRead)
    requires
        page@.first * value_size <= u64::MAX,
        page@.len() * value_size <= usize::MAX,
        page@.len() <= usize::MAX,
    ensures
        read.path == page_path,
        read.offset == page@.first * value_size,
        read.len == page@.len(),
        read.byte_len == page@.len() * value_size,
{
    let offset: u128 = page.first() * (value_size as u128);
    let len: usize = page.len();
    PageRead { path: page_path, offset: offset as u64, len, byte_len: len * value_size }
}

/// Where to write the `len` values that were taken for the slice `page`, if
/// anywhere: to the file of the page, when the slice is the whole page and
/// every value of it is there. A part of a page is never written.
pub fn cache_page<const PAGE_SIZE: u128>(dir: &str, page: &PageRange<PAGE_SIZE>, len: usize) -> (path:
    Option<String>)
    ensures
        path is Some <==> page@.full(PAGE_SIZE as int) && len == page@.len(),
        path is Some ==> path.unwrap()@ == joined_path(dir@, decimal(page@.page as nat)),
{
    if page.full_fill() && (len as u128) == PAGE_SIZE {
        Some(page_path(dir, &page.page()))
    } else {
        None
    }
}

/// One thing to do for a request, in the order in which it is done.
#[derive(Debug, PartialEq)]
pub enum Step<const PAGE_SIZE: u128> {
    /// Create the cache directory, with the directories above it.
    CreateDir,
    /// Read the slice from the file of its page.
    Load(PageRange<PAGE_SIZE>),
    /// Ask the producer for the values of the range. The `Cache` steps that
    /// follow take them, slice by slice.
    Source(IdxRange),
    /// Take the values of the slice from the producer, and write them to the
    /// file of the page if the slice is the whole page.
    Cache(PageRange<PAGE_SIZE>),
}

/// A step, as plain values.
pub enum StepView {
    CreateDir,
    Load(PageSlice),
    Source(IdxRange),
    Cache(PageSlice),
}

impl<const PAGE_SIZE: u128> View for Step<PAGE_SIZE> {
    type V = StepView;

    open spec fn view(&self) -> StepView {
        match self {
            Step::CreateDir => StepView::CreateDir,
            Step::Load(page) => StepView::Load(page@),
            Step::Source(range) => StepView::Source(*range),
            Step::Cache(page) => StepView::Cache(page@),
        }
    }
}

/// The step for one slice: to read it, or to take it from the producer.
pub open spec fn slice_step(cached: bool, slice: PageSlice) -> StepView {
    if cached {
        StepView::Load(slice)
    } else {
        StepView::Cache(slice)
    }
}

/// The steps for the slices in `slices`, all read or all taken from the
/// producer.
pub open spec fn slice_steps(cached: bool, slices: Seq<PageSlice>) -> Seq<StepView> {
    Seq::new(slices.len(), |i: int| slice_step(cached, slices[i]))
}

/// The steps that read a group from disk: one `Load` for each slice.
pub open spec fn load_steps(group: PageGroup, size: int) -> Seq<StepView> {
    slice_steps(true, group.slices(size))
}

/// The steps that fill a group from the producer: one `Source` for the
/// group's range, then one `Cache` for each slice.
pub open spec fn cache_steps(group: PageGroup, size: int) -> Seq<StepView> {
    seq![StepView::Source(group.index_range(size))] + slice_steps(false, group.slices(size))
}

/// The steps that serve a group when there is no cache directory yet: the
/// directory is made, and the group is filled from the producer.
pub open spec fn fresh_steps(group: PageGroup, size: int) -> Seq<StepView> {
    seq![StepView::CreateDir] + cache_steps(group, size)
}

/// The views of the steps in `steps`.
pub open spec fn step_views<const PAGE_SIZE: u128>(steps: Seq<Step<PAGE_SIZE>>) -> Seq<StepView> {
    Seq::new(steps.len(), |i: int| steps[i]@)
}

/// The steps of one group that are still to come.
pub struct StepsIter<const PAGE_SIZE: u128> {
    create: bool,
    source: Option<IdxRange>,
    cached: bool,
    pages: PagesIter<PAGE_SIZE>,
}

impl<const PAGE_SIZE: u128> View for StepsIter<PAGE_SIZE> {
    type V = Seq<StepView>;

    closed spec fn view(&self) -> Seq<StepView> {
        if self.create {
            seq![StepView::CreateDir] + self.after_create()
        } else {
            self.after_create()
        }
    }
}

impl<const PAGE_SIZE: u128> StepsIter<PAGE_SIZE> {
    /// The steps that are left once the directory is there.
    closed spec fn after_create(&self) -> Seq<StepView> {
        match self.source {
            Some(range) => seq![StepView::Source(range)] + slice_steps(self.cached, self.pages@),
            None => slice_steps(self.cached, self.pages@),
        }
    }

    /// The steps that read `pages` from disk.
    pub fn load(pages: &PagesRange<PAGE_SIZE>) -> (iter: Self)
        ensures
            iter@ == load_steps(pages@, PAGE_SIZE as int),
            iter@.len() > 0,
    {
        Self { create: false, source: None, cached: true, pages: pages.pages() }
    }

    /// The steps that fill `pages` from the producer.
    pub fn cache(pages: &PagesRange<PAGE_SIZE>) -> (iter: Self)
        ensures
            iter@ == cache_steps(pages@, PAGE_SIZE as int),
            iter@.len() > 0,
    {
        Self {
            create: false,
            source: Some(IdxRange::from(*pages)),
            cached: false,
            pages: pages.pages(),
        }
    }

    /// The steps that make the cache directory and fill `pages` from the
    /// producer.
    pub fn fresh(pages: &PagesRange<PAGE_SIZE>) -> (iter: Self)
        ensures
            iter@ == fresh_steps(pages@, PAGE_SIZE as int),
    {
        Self {
            create: true,
            source: Some(IdxRange::from(*pages)),
            cached: false,
            pages: pages.pages(),
        }
    }

    /// Takes the next step, if one is left.
    pub fn next(&mut self) -> (res: Option<Step<PAGE_SIZE>>)
        ensures
            old(self)@.len() == 0 ==> res is None && final(self)@ == old(self)@,
            old(self)@.len() > 0 ==> res is Some && res.unwrap()@ == old(self)@[0] && final(self)@
                == old(self)@.skip(1),
    {
        if self.create {
            self.create = false;
            assert(self@ =~= old(self)@.skip(1));
            return Some(Step::CreateDir);
        }
        match self.source {
            Some(range) => {
                self.source = None;
                assert(self@ =~= old(self)@.skip(1));
                Some(Step::Source(range))
            },
            None => {
                let ghost before = self.pages@;
                match self.pages.next() {
                    Some(page) => {
                        assert(self@ =~= old(self)@.skip(1));
                        if self.cached {
                            Some(Step::Load(page))
                        } else {
                            Some(Step::Cache(page))
                        }
                    },
                    None => None,
                }
            },
        }
    }
}

/// Moves the steps that are left in `iter` to the end of `steps`.
fn drain<const PAGE_SIZE: u128>(steps: &mut Vec<Step<PAGE_SIZE>>, iter: StepsIter<PAGE_SIZE>)
    ensures
        step_views(final(steps)@) == step_views(old(steps)@) + iter@,
{
    let mut iter = iter;
    let ghost all = iter@;
    let ghost before = step_views(steps@);
    let ghost mut taken: int = 0;
    assert(all.skip(0) =~= all);
    assert(all.take(0) =~= Seq::<StepView>::empty());
    loop
        invariant
            0 <= taken <= all.len(),
            iter@ == all.skip(taken),
            step_views(steps@) == before + all.take(taken),
        ensures
            step_views(steps@) == before + all,
        decreases all.len() - taken,
    {
        let ghost views = step_views(steps@);
        match iter.next() {
            Some(step) => {
                proof {
                    assert(all.skip(taken).skip(1) =~= all.skip(taken + 1));
                    assert(all.take(taken + 1) =~= all.take(taken).push(all[taken]));
                }
                steps.push(step);
                proof {
                    assert(step_views(steps@) =~= views.push(step@));
                    taken = taken + 1;
                }
            },
            None => {
                assert(all.take(taken) =~= all);
                break ;
            },
        }
    }
}

/// The steps that read `pages` from disk: one `Load` for each slice.
pub fn load_pages<const PAGE_SIZE: u128>(pages: &PagesRange<PAGE_SIZE>) -> (steps: Vec<
    Step<PAGE_SIZE>,
>)
    ensures
        step_views(steps@) == load_steps(pages@, PAGE_SIZE as int),
{
    let mut steps: Vec<Step<PAGE_SIZE>> = Vec::new();
    assert(step_views(steps@) =~= Seq::<StepView>::empty());
    drain(&mut steps, StepsIter::load(pages));
    steps
}

/// The steps that serve `pages` when there is no cache directory yet.
pub fn fresh_pages<const PAGE_SIZE: u128>(pages: &PagesRange<PAGE_SIZE>) -> (steps: Vec<
    Step<PAGE_SIZE>,
>)
    ensures
        step_views(steps@) == fresh_steps(pages@, PAGE_SIZE as int),
{
    let mut steps: Vec<Step<PAGE_SIZE>> = Vec::new();
    assert(step_views(steps@) =~= Seq::<StepView>::empty());
    drain(&mut steps, StepsIter::fresh(pages));
    steps
}

/// The steps that fill `pages` from the producer: it is asked for the range
/// of `pages`, and its values are taken slice by slice.
pub fn cache_pages<const PAGE_SIZE: u128>(pages: &PagesRange<PAGE_SIZE>) -> (steps: Vec<
    Step<PAGE_SIZE>,
>)
    ensures
        step_views(steps@) == cache_steps(pages@, PAGE_SIZE as int),
{
    let mut steps: Vec<Step<PAGE_SIZE>> = Vec::new();
    assert(step_views(steps@) =~= Seq::<StepView>::empty());
    drain(&mut steps, StepsIter::cache(pages));
    steps
}

} // verus!
