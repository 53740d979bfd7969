use vstd::prelude::*;
use crate::config::{MAX_APP_NUM, APP_SIZE_LIMIT, USER_STACK_SIZE, KERNEL_STACK_SIZE};

verus! {

/// The apps linked into the kernel image, and the next one to run.
pub struct AppManagerInner {
    pub num_app: usize,
    pub current_app: usize,
    /// Where the image of each app starts; app `i` ends where app `i + 1`
    /// starts.
    pub app_start: [usize; 17],
}

impl AppManagerInner {
    pub open spec fn wf(&self) -> bool {
        self.num_app <= MAX_APP_NUM
    }

    /// The apps that the table `table` lists: their number, then the start
    /// of each and the end of the last.
    pub fn from_table(table: &[usize]) -> (r: AppManagerInner)
        requires
            table@.len() >= 1,
            table@[0] <= MAX_APP_NUM,
            table@.len() >= table@[0] + 2,
        ensures
            r.wf(),
            r.num_app == table@[0],
            r.current_app == 0,
            forall|i: int| 0 <= i <= r.num_app ==> #[trigger] r.app_start@[i] == table@[i + 1],
            forall|i: int| r.num_app < i < 17 ==> #[trigger] r.app_start@[i] == 0,
    {
        let num_app = table[0];
        let mut app_start: [usize; 17] = [0usize; 17];
        let mut i: usize = 0;
        while i <= num_app
            invariant
                num_app == table@[0],
                num_app <= MAX_APP_NUM,
                table@.len() >= num_app + 2,
                i <= num_app + 1,
                app_start@.len() == 17,
                forall|j: int| 0 <= j < i ==> #[trigger] app_start@[j] == table@[j + 1],
                forall|j: int| i <= j < 17 ==> #[trigger] app_start@[j] == 0,
            decreases num_app + 1 - i,
        {
            app_start[i] = table[i + 1];
            i = i + 1;
        }
        AppManagerInner { num_app, current_app: 0, app_start }
    }

    pub fn get_current_app(&self) -> (r: usize)
        ensures
            r == self.current_app,
    {
        self.current_app
    }

    pub fn move_to_next_app(&mut self)
        requires
            old(self).current_app < usize::MAX,
        ensures
            final(self).current_app == old(self).current_app + 1,
            final(self).num_app == old(self).num_app,
            final(self).app_start == old(self).app_start,
    {
        self.current_app = self.current_app + 1;
    }

    /// Where the image of app `app_id` lies, as `(start, end)`.
    pub fn app_range(&self, app_id: usize) -> (r: (usize, usize))
        requires
            self.wf(),
            app_id < self.num_app,
        ensures
            r == (self.app_start@[app_id as int], self.app_start@[app_id + 1]),
    {
        (self.app_start[app_id], self.app_start[app_id + 1])
    }

    /// The contents of the app area once app `app_id`, whose image is
    /// `image`, is loaded: the image, then zeros up to the area's size.
    pub fn load_app(&self, app_id: usize, image: &[u8]) -> (r: Vec<u8>)
        requires
            self.wf(),
            app_id < self.num_app,
            self.app_start@[app_id as int] <= self.app_start@[app_id + 1],
            image@.len() == self.app_start@[app_id + 1] - self.app_start@[app_id as int],
            image@.len() <= APP_SIZE_LIMIT,
        ensures
            r@.len() == APP_SIZE_LIMIT,
            forall|i: int| 0 <= i < image@.len() ==> #[trigger] r@[i] == image@[i],
            forall|i: int| image@.len() <= i < APP_SIZE_LIMIT ==> #[trigger] r@[i] == 0,
    {
        let mut area: Vec<u8> = Vec::new();
        let mut i: usize = 0;
        while i < APP_SIZE_LIMIT
            invariant
                i <= APP_SIZE_LIMIT,
                image@.len() <= APP_SIZE_LIMIT,
                area@.len() == i,
                forall|j: int| 0 <= j < i && j < image@.len() ==> #[trigger] area@[j] == image@[j],
                forall|j: int| image@.len() <= j < i ==> #[trigger] area@[j] == 0,
            decreases APP_SIZE_LIMIT - i,
        {
            if i < image.len() {
                area.push(image[i]);
            } else {
                area.push(0u8);
            }
            i = i + 1;
        }
        area
    }
}

/// The kernel stack of the batch system, by the address of its lowest byte.
pub struct KernelStack {
    pub base: usize,
}

/// The user stack of the batch system, by the address of its lowest byte.
pub struct UserStack {
    pub base: usize,
}

impl KernelStack {
    /// The initial stack pointer: just past the stack's top byte.
    pub fn get_sp(&self) -> (r: usize)
        requires
            self.base + KERNEL_STACK_SIZE <= usize::MAX,
        ensures
            r == self.base + KERNEL_STACK_SIZE,
    {
        self.base + KERNEL_STACK_SIZE
    }

    /// Where a context of `cx_size` bytes pushed on the stack goes: just
    /// below the top.
    pub fn push_context(&self, cx_size: usize) -> (r: usize)
        requires
            self.base + KERNEL_STACK_SIZE <= usize::MAX,
            cx_size <= KERNEL_STACK_SIZE,
        ensures
            r == self.base + KERNEL_STACK_SIZE - cx_size,
    {
        self.get_sp() - cx_size
    }
}

impl UserStack {
    /// The initial stack pointer: just past the stack's top byte.
    pub fn get_sp(&self) -> (r: usize)
        requires
            self.base + USER_STACK_SIZE <= usize::MAX,
        ensures
            r == self.base + USER_STACK_SIZE,
    {
        self.base + USER_STACK_SIZE
    }
}

} // verus!
