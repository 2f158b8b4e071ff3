//! The batch system's table of linked-in applications and which one runs
//! next.
use vstd::prelude::*;
use crate::config::PAGE_SIZE;
use crate::loader::slice_to_vec;
use crate::mm::memory_set::{chunk, with_prefix};
use crate::mm::phys_mem::{PhysMemory, zero_page};

verus! {

/// Most applications the table holds.
pub const MAX_APP_NUM: usize = 16;

/// Entries of the start-address table: one per application and the end of
/// the last one.
pub const APP_TABLE_LEN: usize = 17;

/// Where an application is loaded to run.
pub const APP_BASE_ADDRESS: usize = 0x8040_0000;

/// Most bytes an application may take.
pub const APP_SIZE_LIMIT: usize = 0x2_0000;

/// Pages of the area applications are loaded to.
pub const APP_PAGES: usize = 32;

/// Page number of the start of the application area.
pub open spec fn app_base_page() -> int {
    APP_BASE_ADDRESS as int / PAGE_SIZE as int
}

/// The applications linked into the kernel image, each from
/// `app_start[i]` up to `app_start[i + 1]`, and the next one to run.
pub struct AppManager {
    num_app: usize,
    current_app: usize,
    app_start: [usize; APP_TABLE_LEN],
}

impl AppManager {
    /// Number of applications.
    pub closed spec fn apps(&self) -> usize {
        self.num_app
    }

    /// Index of the application that runs next.
    pub closed spec fn current(&self) -> usize {
        self.current_app
    }

    /// Start address of application `i`, or its end for `i == apps()`.
    pub closed spec fn start_of(&self, i: int) -> usize {
        self.app_start@[i]
    }

    /// The table as the linker lays it out: `app_start_raw` holds the start
    /// addresses of `num_app` applications and the end of the last one.
    pub fn new(num_app: usize, app_start_raw: &[usize]) -> (m: Self)
        requires
            num_app <= MAX_APP_NUM,
            app_start_raw@.len() == num_app + 1,
        ensures
            m.apps() == num_app,
            m.current() == 0,
            forall|i: int| 0 <= i <= num_app ==> #[trigger] m.start_of(i) == app_start_raw@[i],
    {
        let mut app_start: [usize; APP_TABLE_LEN] = [0; APP_TABLE_LEN];
        let mut i: usize = 0;
        while i <= num_app
            invariant
                num_app <= MAX_APP_NUM,
                app_start_raw@.len() == num_app + 1,
                i <= num_app + 1,
                app_start@.len() == MAX_APP_NUM + 1,
                forall|j: int| 0 <= j < i ==> #[trigger] app_start@[j] == app_start_raw@[j],
            decreases num_app + 1 - i,
        {
            app_start[i] = app_start_raw[i];
            i = i + 1;
        }
        AppManager { num_app, current_app: 0, app_start }
    }

    /// Start address of application `i`, or the end of the last one for
    /// `i == num_app`.
    pub fn app_start(&self, i: usize) -> (a: usize)
        requires
            i <= MAX_APP_NUM,
        ensures
            a == self.start_of(i as int),
    {
        self.app_start[i]
    }

    /// Number of applications.
    pub fn num_app(&self) -> (n: usize)
        ensures
            n == self.apps(),
    {
        self.num_app
    }

    /// Index of the application that runs next.
    pub fn get_current_app(&self) -> (i: usize)
        ensures
            i == self.current(),
    {
        self.current_app
    }

    /// Loads application `app_id`, whose bytes are `app_src`, into the
    /// application area of `mem`: the area is cleared and the bytes copied to
    /// its start. Returns `false`, leaving memory as it is, when every
    /// application has run, which is when `app_id` is past the last one.
    pub fn load_app(&self, mem: &mut PhysMemory, app_id: usize, app_src: &[u8]) -> (loaded: bool)
        requires
            old(mem).wf(),
            forall|k: int| 0 <= k < APP_PAGES ==> #[trigger] old(mem).has_page((app_base_page() + k) as usize),
            app_id < self.apps() ==> app_src@.len() == self.start_of(app_id + 1) - self.start_of(app_id as int),
            app_src@.len() <= APP_SIZE_LIMIT,
        ensures
            loaded == (app_id < self.apps()),
            final(mem).wf(),
            final(mem).base() == old(mem).base(),
            final(mem).num_pages() == old(mem).num_pages(),
            !loaded ==> *final(mem) == *old(mem),
            loaded ==> forall|k: int| 0 <= k < APP_PAGES ==> #[trigger] final(mem).page((app_base_page() + k) as usize)
                == with_prefix(zero_page(), chunk(app_src@, k)),
            forall|p: usize| old(mem).has_page(p) && !(app_base_page() <= p < app_base_page() + APP_PAGES)
                ==> #[trigger] final(mem).page(p) == old(mem).page(p),
    {
        if app_id >= self.num_app {
            return false;
        }
        let base_page = APP_BASE_ADDRESS / PAGE_SIZE;
        let len = app_src.len();
        let mut k: usize = 0;
        while k < APP_PAGES
            invariant
                k <= APP_PAGES,
                base_page == app_base_page(),
                len == app_src@.len(),
                len <= APP_SIZE_LIMIT,
                mem.wf(),
                mem.base() == old(mem).base(),
                mem.num_pages() == old(mem).num_pages(),
                forall|j: int| 0 <= j < APP_PAGES ==> #[trigger] old(mem).has_page((app_base_page() + j) as usize),
                forall|j: int| 0 <= j < k ==> #[trigger] mem.page((app_base_page() + j) as usize)
                    == with_prefix(zero_page(), chunk(app_src@, j)),
                forall|p: usize| old(mem).has_page(p) && !(app_base_page() <= p < app_base_page() + k)
                    ==> #[trigger] mem.page(p) == old(mem).page(p),
            decreases APP_PAGES - k,
        {
            let ppn = base_page + k;
            assert(mem.has_page(ppn)) by {
                assert(old(mem).has_page((app_base_page() + k) as usize));
            }
            let ghost m0 = *mem;
            mem.zero(ppn);
            let lo = k * PAGE_SIZE;
            if lo < len {
                let hi = if len - lo < PAGE_SIZE { len } else { lo + PAGE_SIZE };
                let part = slice_to_vec(app_src, lo, hi);
                mem.write_bytes(ppn, 0, part.as_slice());
                proof {
                    mem.lemma_page_len(ppn);
                    assert(part@ == chunk(app_src@, k as int));
                    assert(mem.page(ppn) =~= with_prefix(zero_page(), chunk(app_src@, k as int)));
                }
            } else {
                proof {
                    assert(chunk(app_src@, k as int) =~= Seq::<u8>::empty());
                    assert(with_prefix(zero_page(), Seq::<u8>::empty()) =~= zero_page());
                }
            }
            proof {
                assert forall|j: int| 0 <= j < k implies #[trigger] mem.page((app_base_page() + j) as usize)
                    == with_prefix(zero_page(), chunk(app_src@, j)) by {
                    assert(old(mem).has_page((app_base_page() + j) as usize));
                    assert(m0.page((app_base_page() + j) as usize) == with_prefix(zero_page(), chunk(app_src@, j)));
                }
            }
            k = k + 1;
        }
        true
    }

    /// Moves on to the next application.
    pub fn move_to_next_app(&mut self)
        requires
            old(self).current() < usize::MAX,
        ensures
            final(self).current() == old(self).current() + 1,
            final(self).apps() == old(self).apps(),
            forall|i: int| #[trigger] final(self).start_of(i) == old(self).start_of(i),
    {
        self.current_app += 1;
    }
}

} // verus!
