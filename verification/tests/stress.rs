use std::future::Future;
use std::pin::Pin;
use std::sync::Arc;
use std::sync::Mutex;
use std::task::Context;
use std::task::Poll;
use wakerset::Arena;
use wakerset::WakerList;
use wakerset::WakerSlot;

const TC: usize = 16;
const ITER: u64 = 1000000;
const WAKER_TASKS: u64 = 1;
const YIELD_TASKS: u64 = 8;
const DROP_TASKS: u64 = 8;

struct Inner {
    iter_limit: u64,
    count: u64,
    arena: Arena,
    waiters: usize,
}

#[derive(Clone)]
struct DS(Arc<Mutex<Inner>>);

impl DS {
    fn new(iter_limit: u64) -> DS {
        let mut arena = Arena::new();
        let waiters = arena.pin_list(WakerList::new());
        DS(Arc::new(Mutex::new(Inner {
            iter_limit,
            count: 0,
            arena,
            waiters,
        })))
    }

    fn wake_waiters(&self) -> bool {
        let mut inner = self.0.lock().unwrap();
        let result = if inner.count < inner.iter_limit {
            inner.count += 1;
            true
        } else {
            false
        };
        let waiters = inner.waiters;
        let wakers = WakerList::extract_wakers(&mut inner.arena, waiters);
        drop(inner);
        wakers.notify_all();
        result
    }

    fn block(&self) -> Block<'_> {
        let mut inner = self.0.lock().unwrap();
        let count = inner.count;
        let slot = inner.arena.pin_slot(WakerSlot::new());
        Block {
            ds: self,
            count,
            slot,
        }
    }
}

struct Block<'a> {
    ds: &'a DS,
    count: u64,
    slot: usize,
}

impl Drop for Block<'_> {
    fn drop(&mut self) {
        let mut inner = self.ds.0.lock().unwrap();
        let waiters = inner.waiters;
        if inner.arena.slot(self.slot).is_linked() {
            WakerList::unlink(&mut inner.arena, waiters, self.slot);
            assert!(!inner.arena.slot(self.slot).is_linked(), "unlink did not work");
        }
        WakerSlot::drop(&mut inner.arena, self.slot);
    }
}

impl Future for Block<'_> {
    type Output = bool;

    fn poll(self: Pin<&mut Self>, cx: &mut Context<'_>) -> Poll<bool> {
        let mut inner = self.ds.0.lock().unwrap();
        if inner.count == inner.iter_limit {
            Poll::Ready(false)
        } else if self.count == inner.count {
            let waiters = inner.waiters;
            WakerList::link(&mut inner.arena, waiters, self.slot, cx.waker().clone());
            Poll::Pending
        } else {
            Poll::Ready(true)
        }
    }
}

/// The first of several futures that is ready, polled in order.
struct First<'a>(Vec<Block<'a>>);

impl Future for First<'_> {
    type Output = bool;

    fn poll(mut self: Pin<&mut Self>, cx: &mut Context<'_>) -> Poll<bool> {
        for block in self.0.iter_mut() {
            if let Poll::Ready(result) = Pin::new(block).poll(cx) {
                return Poll::Ready(result);
            }
        }
        Poll::Pending
    }
}

async fn wake_repeatedly(ds: DS) {
    while ds.wake_waiters() {}
}

async fn yield_repeatedly(ds: DS) {
    while ds.block().await {}
}

async fn drop_repeatedly(ds: DS) {
    while First(vec![ds.block(), ds.block(), ds.block(), ds.block()]).await {}
}

#[test]
fn stress_test() {
    let rt = tokio::runtime::Builder::new_multi_thread()
        .worker_threads(TC)
        .build()
        .unwrap();
    rt.block_on(async move {
        let mut jh = Vec::new();
        let ds = DS::new(ITER);

        for _ in 0..WAKER_TASKS {
            jh.push(tokio::spawn(wake_repeatedly(ds.clone())));
        }
        for _ in 0..YIELD_TASKS {
            jh.push(tokio::spawn(yield_repeatedly(ds.clone())));
        }
        for _ in 0..DROP_TASKS {
            jh.push(tokio::spawn(drop_repeatedly(ds.clone())));
        }

        drop(ds);
        for jh in jh {
            jh.await.unwrap();
        }
    })
}
