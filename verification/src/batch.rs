//! Programs that run one after the other, each at the same place in memory.

use vstd::prelude::*;

verus! {

/// Bytes of the stack of a program.
pub const USER_STACK_SIZE: u64 = 8192;

/// Bytes of the stack of the kernel.
pub const KERNEL_STACK_SIZE: u64 = 8192;

/// The most programs there can be.
pub const MAX_APP_NUM: usize = 16;

/// Where a program is loaded.
pub const APP_BASE_ADDRESS: u64 = 0x8040_0000;

/// Bytes that are cleared for a program.
pub const APP_SIZE_LIMIT: usize = 0x2_0000;

/// Bytes of the saved registers on the stack of the kernel.
pub const CONTEXT_SIZE: u64 = 296;

/// The programs in the image of the kernel, and the one that comes next.
pub struct AppManager {
    num_app: usize,
    current_app: usize,
    app_start: [u64; 17],
}

impl AppManager {
    /// The number of programs.
    pub closed spec fn count(&self) -> int {
        self.num_app as int
    }

    /// The program that comes next.
    pub closed spec fn current(&self) -> int {
        self.current_app as int
    }

    /// Where the programs start, and behind them where the last one ends.
    pub closed spec fn starts(&self) -> Seq<u64> {
        self.app_start@
    }

    /// There are at most as many programs as there may be, and each ends where the next one starts.
    pub open spec fn wf(&self) -> bool {
        &&& 0 <= self.count() <= MAX_APP_NUM
        &&& self.starts().len() == 17
        &&& forall|i: int, j: int|
            0 <= i <= j <= self.count() ==> #[trigger] self.starts()[i] <= #[trigger] self.starts()[j]
    }

    /// Reads the table of the programs: their number, where they start, and where the last one ends.
    pub fn new(table: &[u64]) -> (r: Self)
        requires
            table@.len() >= 2,
            table@[0] <= MAX_APP_NUM,
            table@.len() >= table@[0] + 2,
            forall|i: int, j: int|
                1 <= i <= j <= table@[0] + 1 ==> #[trigger] table@[i] <= #[trigger] table@[j],
        ensures
            r.wf(),
            r.count() == table@[0],
            r.current() == 0,
            forall|i: int| 0 <= i <= table@[0] ==> #[trigger] r.starts()[i] == table@[i + 1],
    {
        let num_app: usize = table[0] as usize;
        let mut app_start: [u64; 17] = [0u64; 17];
        let mut i: usize = 0;
        while i <= num_app
            invariant
                num_app == table@[0],
                num_app <= 16,
                i <= num_app + 1,
                table@.len() >= num_app + 2,
                forall|j: int| 0 <= j < i ==> #[trigger] app_start@[j] == table@[j + 1],
            decreases num_app + 1 - i,
        {
            app_start[i] = table[i + 1];
            i += 1;
        }
        AppManager { num_app, current_app: 0, app_start }
    }

    /// Where each program lies.
    pub fn app_info(&self) -> (r: Vec<(u64, u64)>)
        requires
            self.wf(),
        ensures
            r@.len() == self.count(),
            forall|i: int|
                0 <= i < r@.len() ==> #[trigger] r@[i] == (self.starts()[i], self.starts()[i + 1]),
    {
        let mut r: Vec<(u64, u64)> = Vec::new();
        let mut i: usize = 0;
        while i < self.num_app
            invariant
                i <= self.num_app <= 16,
                r@.len() == i,
                forall|j: int|
                    0 <= j < i ==> #[trigger] r@[j] == (self.app_start@[j], self.app_start@[j + 1]),
            decreases self.num_app - i,
        {
            r.push((self.app_start[i], self.app_start[i + 1]));
            i += 1;
        }
        r
    }

    /// The program that comes next.
    pub fn get_current_app(&self) -> (r: usize)
        ensures
            r == self.current(),
    {
        self.current_app
    }

    /// Goes on to the program behind it.
    pub fn move_to_next_app(&mut self)
        requires
            old(self).current() < usize::MAX,
        ensures
            final(self).current() == old(self).current() + 1,
            final(self).count() == old(self).count(),
            final(self).starts() == old(self).starts(),
    {
        self.current_app = self.current_app + 1;
    }

    /// What lies at the place of the programs when a program is loaded: the program, and zeros
    /// behind it. `image` is what lies in memory from `base` on.
    pub fn load_app(&self, app_id: usize, image: &[u8], base: u64) -> (r: Vec<u8>)
        requires
            self.wf(),
            app_id < self.count(),
            base <= self.starts()[app_id as int],
            self.starts()[app_id + 1] - base <= image@.len(),
        ensures
            r@ == app_area(
                image@.subrange(
                    self.starts()[app_id as int] - base,
                    self.starts()[app_id + 1] - base,
                ),
            ),
    {
        assert(self.starts()[app_id as int] <= self.starts()[app_id + 1]);
        let size: usize = image.len();
        assert(self.starts()[app_id + 1] - base <= size);
        let from: usize = (self.app_start[app_id] - base) as usize;
        let to: usize = (self.app_start[app_id + 1] - base) as usize;
        let ghost app = image@.subrange(from as int, to as int);
        let mut area: Vec<u8> = Vec::new();
        let mut i: usize = from;
        assert(area@ =~= app.take(0));
        while i < to
            invariant
                from <= i <= to <= image@.len(),
                app == image@.subrange(from as int, to as int),
                area@ == app.take(i - from),
            decreases to - i,
        {
            area.push(image[i]);
            i += 1;
            assert(area@ =~= app.take(i - from));
        }
        assert(area@ =~= app);
        while area.len() < APP_SIZE_LIMIT
            invariant
                app.len() <= area@.len(),
                app.len() >= APP_SIZE_LIMIT ==> area@.len() == app.len(),
                app.len() < APP_SIZE_LIMIT ==> area@.len() <= APP_SIZE_LIMIT,
                area@.take(app.len() as int) == app,
                forall|j: int| app.len() <= j < area@.len() ==> #[trigger] area@[j] == 0,
            decreases APP_SIZE_LIMIT - area@.len(),
        {
            let ghost before = area@;
            area.push(0);
            assert(area@.take(app.len() as int) =~= before.take(app.len() as int));
        }
        proof {
            let n = app.len() as int;
            assert forall|j: int| 0 <= j < n implies area@[j] == app[j] by {
                assert(area@.take(n)[j] == app[j]);
            }
            assert(area@ =~= app_area(app));
        }
        area
    }

    /// Loads the program that comes next, and goes on to the one behind it. `None` if all have run.
    pub fn run_next_app(&mut self, image: &[u8], base: u64) -> (r: Option<Vec<u8>>)
        requires
            old(self).wf(),
            old(self).current() < usize::MAX,
            old(self).current() < old(self).count() ==> base <= old(self).starts()[old(
                self,
            ).current()] && old(self).starts()[old(self).current() + 1] - base <= image@.len(),
        ensures
            final(self).wf(),
            final(self).count() == old(self).count(),
            final(self).starts() == old(self).starts(),
            if old(self).current() < old(self).count() {
                &&& final(self).current() == old(self).current() + 1
                &&& r is Some
                &&& r->0@ == app_area(
                    image@.subrange(
                        old(self).starts()[old(self).current()] - base,
                        old(self).starts()[old(self).current() + 1] - base,
                    ),
                )
            } else {
                r is None && final(self).current() == old(self).current()
            },
    {
        let current_app: usize = self.get_current_app();
        if current_app >= self.num_app {
            return None;
        }
        let area: Vec<u8> = self.load_app(current_app, image, base);
        self.move_to_next_app();
        Some(area)
    }
}

/// The place of the programs with a program at its start.
pub open spec fn app_area(app: Seq<u8>) -> Seq<u8> {
    if app.len() >= APP_SIZE_LIMIT {
        app
    } else {
        app + Seq::new((APP_SIZE_LIMIT - app.len()) as nat, |i: int| 0u8)
    }
}

/// Where the saved registers lie on a stack of the kernel that starts at `bottom`: they end where the
/// stack ends.
pub fn context_place(bottom: u64) -> (r: u64)
    requires
        bottom + KERNEL_STACK_SIZE <= u64::MAX,
    ensures
        r + CONTEXT_SIZE == bottom + KERNEL_STACK_SIZE,
{
    bottom + KERNEL_STACK_SIZE - CONTEXT_SIZE
}

/// The programs follow each other in the image. Each time the next one is loaded, its own bytes lie at
/// the place of the programs, and zeros behind them up to the length that is cleared. Behind the last
/// one there is none.
pub proof fn law_programs_are_loaded_in_order(
    a0: AppManager,
    a1: AppManager,
    image: &[u8],
    base: u64,
    r: Option<Vec<u8>>,
)
    requires
        exists|a: &mut AppManager| #[trigger]
            call_ensures(AppManager::run_next_app, (a, image, base), r) && *a == a0 && *final(a) == a1,
        a0.wf(),
        a0.current() >= 0,
        a0.current() < a0.count() ==> base <= a0.starts()[a0.current()] && a0.starts()[a0.current()
            + 1] - base <= image@.len(),
    ensures
        a0.current() >= a0.count() ==> r is None && a1.current() == a0.current(),
        a0.current() < a0.count() ==> {
            let from = a0.starts()[a0.current()] - base;
            let to = a0.starts()[a0.current() + 1] - base;
            &&& a1.current() == a0.current() + 1
            &&& a1.starts() == a0.starts()
            &&& r matches Some(area) && area@.len() >= 0x2_0000 && area@.len() >= to - from
                && forall|i: int|
                0 <= i < area@.len() ==> #[trigger] area@[i] == (if i < to - from {
                    image@[from + i]
                } else {
                    0
                })
        },
{
    if a0.current() < a0.count() {
        assert(a0.starts()[a0.current()] <= a0.starts()[a0.current() + 1]);
    }
}

/// The table of the programs: how many there are, where each starts, and where the last one ends.
pub proof fn law_table_of_programs(table: &[u64], a: AppManager, info: Vec<(u64, u64)>)
    requires
        call_ensures(AppManager::new, (table,), a),
        call_ensures(AppManager::app_info, (&a,), info),
    ensures
        a.current() == 0,
        info@.len() == table@[0],
        forall|i: int|
            0 <= i < info@.len() ==> (#[trigger] info@[i]).0 == table@[i + 1] && info@[i].1 == table@[i
                + 2],
{
    assert forall|i: int| 0 <= i < info@.len() implies (#[trigger] info@[i]).0 == table@[i + 1]
        && info@[i].1 == table@[i + 2] by {
        assert(a.starts()[i] == table@[i + 1]);
        assert(a.starts()[i + 1] == table@[i + 1 + 1]);
    }
}

} // verus!
