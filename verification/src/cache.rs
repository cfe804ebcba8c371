//! An object cache: values are handed out by `CacheControl::get` and given
//! back by `Cache::release`; values given back are kept in a pool, up to a
//! depth, and handed out again before the factory is asked for a new one.
use vstd::prelude::*;

verus! {

/// Counters of what a cache has done.
#[derive(Clone, Copy)]
pub struct Stat {
    /// Values made by the factory.
    pub alloc_num: usize,
    /// Values handed out again from the pool.
    pub reuse_num: usize,
    /// Values given back and dropped because the pool was full.
    pub free_num: usize,
    /// Values given back and kept in the pool.
    pub recyle_num: usize,
}

impl Stat {
    /// The counters with one more value made by the factory.
    pub open spec fn allocated(self) -> Stat {
        Stat { alloc_num: (self.alloc_num + 1) as usize, ..self }
    }

    /// The counters with one more value handed out again.
    pub open spec fn reused(self) -> Stat {
        Stat { reuse_num: (self.reuse_num + 1) as usize, ..self }
    }

    /// The counters with one more value dropped.
    pub open spec fn freed(self) -> Stat {
        Stat { free_num: (self.free_num + 1) as usize, ..self }
    }

    /// The counters with one more value kept in the pool.
    pub open spec fn recycled(self) -> Stat {
        Stat { recyle_num: (self.recyle_num + 1) as usize, ..self }
    }
}

/// The state shared by a cache and its handles.
struct Info<T> {
    stat: Stat,
    depth: usize,
    list: Vec<Box<T>>,
}

/// A value handed out by a cache; it belongs to the cache that made it.
pub struct Cache<T> {
    value: Option<Box<T>>,
    owner: Ghost<int>,
}

/// A cache of values of type `T`, made by the factory `f` when the pool is
/// empty. A depth of 0 puts no bound on the pool.
pub struct CacheControl<T, F> {
    info: Info<T>,
    f: F,
    id: Ghost<int>,
}

/// The pool after value `v` is given back to a pool holding `cached` with
/// depth `depth`: it is kept at the end when the depth is 0 or above the
/// pool's size, and dropped otherwise.
pub open spec fn released<T>(cached: Seq<T>, depth: usize, v: T) -> Seq<T> {
    if depth == 0 || depth > cached.len() {
        cached.push(v)
    } else {
        cached
    }
}

/// The pool after its depth is set to `depth`: a positive depth below the
/// pool's size keeps only that many values, the first ones.
pub open spec fn trimmed<T>(cached: Seq<T>, depth: usize) -> Seq<T> {
    if depth > 0 && cached.len() > depth {
        cached.take(depth as int)
    } else {
        cached
    }
}

fn stat_init() -> (s: Stat)
    ensures
        s == (Stat { alloc_num: 0, reuse_num: 0, free_num: 0, recyle_num: 0 }),
{
    Stat { alloc_num: 0, reuse_num: 0, free_num: 0, recyle_num: 0 }
}

fn info_init<T>(depth: usize) -> (info: Info<T>)
    ensures
        info.stat == (Stat { alloc_num: 0, reuse_num: 0, free_num: 0, recyle_num: 0 }),
        info.depth == depth,
        info.list@ == Seq::<Box<T>>::empty(),
{
    Info { stat: stat_init(), depth: depth, list: Vec::new() }
}

/// Creates a cache whose pool keeps at most `depth` values (no bound when
/// `depth` is 0) and whose new values are made by `f`.
pub fn cache_init<T, F: Fn() -> Box<T>>(depth: usize, f: F) -> (c: CacheControl<T, F>)
    requires
        f.requires(()),
    ensures
        c.wf(),
        c.depth() == depth,
        c.cached() == Seq::<T>::empty(),
        c.stats() == (Stat { alloc_num: 0, reuse_num: 0, free_num: 0, recyle_num: 0 }),
        c.factory() == f,
{
    let c = CacheControl { info: info_init(depth), f: f, id: Ghost(0) };
    assert(c.cached() =~= Seq::<T>::empty());
    c
}

impl<T> Cache<T> {
    /// The value this handle holds.
    pub closed spec fn content(&self) -> Option<T> {
        match self.value {
            Some(b) => Some(*b),
            None => None,
        }
    }

    /// The identity of the cache that handed this value out.
    pub closed spec fn owner(&self) -> int {
        self.owner@
    }

    /// Gives the value back to `control`, the cache that handed it out: it is kept in the pool when the
    /// depth is 0 or above the pool's size, and dropped otherwise.
    pub fn release<F: Fn() -> Box<T>>(self, control: &mut CacheControl<T, F>)
        requires
            old(control).wf(),
            self.owner() == old(control).id(),
            self.content() is Some && old(control).has_room() ==> old(
                control,
            ).stats().recyle_num < usize::MAX,
            self.content() is Some && !old(control).has_room() ==> old(
                control,
            ).stats().free_num < usize::MAX,
        ensures
            final(control).wf(),
            final(control).depth() == old(control).depth(),
            final(control).factory() == old(control).factory(),
            final(control).id() == old(control).id(),
            match self.content() {
                None => {
                    &&& final(control).cached() == old(control).cached()
                    &&& final(control).stats() == old(control).stats()
                },
                Some(v) => {
                    &&& final(control).cached() == released(
                        old(control).cached(),
                        old(control).depth(),
                        v,
                    )
                    &&& final(control).stats() == if old(control).has_room() {
                        old(control).stats().recycled()
                    } else {
                        old(control).stats().freed()
                    }
                },
            },
    {
        match self.value {
            Some(t) => {
                if control.info.depth == 0 || control.info.depth > control.info.list.len() {
                    control.info.list.push(t);
                    control.info.stat.recyle_num = control.info.stat.recyle_num + 1;
                } else {
                    control.info.stat.free_num = control.info.stat.free_num + 1;
                }
                assert(control.cached() =~= released(
                    old(control).cached(),
                    old(control).depth(),
                    *t,
                ));
            },
            None => {},
        }
    }

    /// The value this handle holds.
    pub fn get_ref(&self) -> (r: Option<&T>)
        ensures
            match r {
                Some(x) => self.content() == Some(*x),
                None => self.content() is None,
            },
    {
        match &self.value {
            Some(t) => Some(&**t),
            None => None,
        }
    }

    /// The value this handle holds, to change it in place.
    pub fn get_ref_mut(&mut self) -> (r: Option<&mut T>)
        ensures
            final(self).owner() == old(self).owner(),
            match r {
                Some(x) => {
                    &&& old(self).content() == Some(*x)
                    &&& final(self).content() == Some(*final(x))
                },
                None => {
                    &&& old(self).content() is None
                    &&& final(self).content() is None
                },
            },
    {
        match &mut self.value {
            Some(t) => Some(&mut **t),
            None => None,
        }
    }
}

impl<T, F: Fn() -> Box<T>> CacheControl<T, F> {
    /// The most values the pool keeps (0: no bound).
    pub closed spec fn depth(&self) -> usize {
        self.info.depth
    }

    /// The values in the pool, the next one to be handed out last.
    pub closed spec fn cached(&self) -> Seq<T> {
        self.info.list@.map_values(|b: Box<T>| *b)
    }

    /// The counters.
    pub closed spec fn stats(&self) -> Stat {
        self.info.stat
    }

    /// The factory that makes new values.
    pub closed spec fn factory(&self) -> F {
        self.f
    }

    /// The identity of this cache: the values it hands out carry it, and
    /// only values that carry it can be given back to it.
    pub closed spec fn id(&self) -> int {
        self.id@
    }

    /// Whether a value given back now would be kept.
    pub open spec fn has_room(&self) -> bool {
        self.depth() == 0 || self.depth() > self.cached().len()
    }

    /// The pool stays within its depth, every value handed out again was
    /// kept before, and the factory can always be called.
    pub closed spec fn wf(&self) -> bool {
        &&& self.info.depth == 0 || self.info.list@.len() <= self.info.depth
        &&& self.info.stat.reuse_num + self.info.list@.len() <= self.info.stat.recyle_num
        &&& self.f.requires(())
    }

    /// The counters.
    pub fn stat(&self) -> (s: Stat)
        ensures
            s == self.stats(),
    {
        self.info.stat
    }

    /// The most values the pool keeps (0: no bound).
    pub fn get_depth(&self) -> (d: usize)
        ensures
            d == self.depth(),
    {
        self.info.depth
    }

    /// The number of values in the pool.
    pub fn cached_len(&self) -> (n: usize)
        ensures
            n == self.cached().len(),
    {
        self.info.list.len()
    }

    /// Sets the depth; a positive depth below the pool's size drops the
    /// values past it.
    pub fn reset_depth(&mut self, depth: usize)
        requires
            old(self).wf(),
        ensures
            final(self).wf(),
            final(self).depth() == depth,
            final(self).cached() == trimmed(old(self).cached(), depth),
            final(self).stats() == old(self).stats(),
            final(self).factory() == old(self).factory(),
            final(self).id() == old(self).id(),
    {
        self.info.depth = depth;
        if depth > 0 {
            while depth < self.info.list.len()
                invariant
                    self.info.depth == depth,
                    self.info.stat == old(self).info.stat,
                    self.f == old(self).f,
                    self.id == old(self).id,
                    self.info.list@.len() <= old(self).info.list@.len(),
                    self.info.list@ == old(self).info.list@.take(self.info.list@.len() as int),
                    depth > 0,
                    depth < old(self).info.list@.len() ==> depth <= self.info.list@.len(),
                    old(self).info.list@.len() <= depth ==> self.info.list@.len() == old(
                        self,
                    ).info.list@.len(),
                ensures
                    self.info.depth == depth,
                    self.info.stat == old(self).info.stat,
                    self.f == old(self).f,
                    self.id == old(self).id,
                    self.info.list@ == old(self).info.list@.take(self.info.list@.len() as int),
                    self.info.list@.len() <= depth,
                    depth < old(self).info.list@.len() ==> depth <= self.info.list@.len(),
                    old(self).info.list@.len() <= depth ==> self.info.list@.len() == old(
                        self,
                    ).info.list@.len(),
                decreases self.info.list@.len(),
            {
                match self.info.list.pop() {
                    Some(_) => {},
                    None => {
                        break ;
                    },
                }
                assert(self.info.list@ =~= old(self).info.list@.take(
                    self.info.list@.len() as int,
                ));
            }
        }
        assert(self.cached() =~= trimmed(old(self).cached(), depth));
    }

    /// Empties the pool.
    pub fn reset(&mut self)
        requires
            old(self).wf(),
        ensures
            final(self).wf(),
            final(self).cached() == Seq::<T>::empty(),
            final(self).depth() == old(self).depth(),
            final(self).stats() == old(self).stats(),
            final(self).factory() == old(self).factory(),
            final(self).id() == old(self).id(),
    {
        loop
            invariant
                self.info.depth == old(self).info.depth,
                self.info.stat == old(self).info.stat,
                self.f == old(self).f,
                self.id == old(self).id,
                self.info.list@.len() <= old(self).info.list@.len(),
            ensures
                self.info.depth == old(self).info.depth,
                self.info.stat == old(self).info.stat,
                self.f == old(self).f,
                self.id == old(self).id,
                self.info.list@.len() == 0,
            decreases self.info.list@.len(),
        {
            match self.info.list.pop() {
                Some(_) => {},
                None => {
                    break ;
                },
            }
        }
        assert(self.cached() =~= Seq::<T>::empty());
    }

    /// Hands out a value: the last one kept in the pool, or, when the pool is
    /// empty, a new one made by the factory.
    pub fn get(&mut self) -> (c: Cache<T>)
        requires
            old(self).wf(),
            old(self).cached().len() == 0 ==> old(self).stats().alloc_num < usize::MAX,
        ensures
            final(self).wf(),
            final(self).depth() == old(self).depth(),
            final(self).factory() == old(self).factory(),
            final(self).id() == old(self).id(),
            c.owner() == old(self).id(),
            old(self).cached().len() > 0 ==> {
                &&& c.content() == Some(old(self).cached().last())
                &&& final(self).cached() == old(self).cached().drop_last()
                &&& final(self).stats() == old(self).stats().reused()
            },
            old(self).cached().len() == 0 ==> {
                &&& c.content() is Some
                &&& old(self).factory().ensures((), Box::new(c.content().unwrap()))
                &&& final(self).cached() == old(self).cached()
                &&& final(self).stats() == old(self).stats().allocated()
            },
    {
        let t = match self.info.list.pop() {
            Some(t) => {
                self.info.stat.reuse_num = self.info.stat.reuse_num + 1;
                t
            },
            None => {
                self.info.stat.alloc_num = self.info.stat.alloc_num + 1;
                (self.f)()
            },
        };
        assert(self.cached() =~= old(self).cached().drop_last() || old(self).cached().len() == 0);
        Cache { value: Some(t), owner: Ghost(self.id@) }
    }
}

/// A cache never keeps more values than its depth (when the depth is not 0).
pub proof fn law_pool_within_depth<T, F: Fn() -> Box<T>>(c: &CacheControl<T, F>)
    requires
        c.wf(),
    ensures
        c.depth() == 0 || c.cached().len() <= c.depth(),
{
}

/// Every value handed out again was given back before: the values handed
/// out again and those still in the pool are no more than those kept.
pub proof fn law_reuse_was_recycled<T, F: Fn() -> Box<T>>(c: &CacheControl<T, F>)
    requires
        c.wf(),
    ensures
        c.stats().reuse_num + c.cached().len() <= c.stats().recyle_num,
{
}

/// A value given back to a pool with room is the next one handed out, and
/// handing it out leaves the pool as it was.
pub proof fn law_release_then_get<T>(cached: Seq<T>, depth: usize, v: T)
    requires
        depth == 0 || depth > cached.len(),
    ensures
        released(cached, depth, v).len() > 0,
        released(cached, depth, v).last() == v,
        released(cached, depth, v).drop_last() == cached,
{
    assert(cached.push(v).drop_last() =~= cached);
}

/// Taking the next value out of a pool that stays within its depth and
/// giving it straight back leaves the pool as it was.
pub proof fn law_get_then_release<T>(cached: Seq<T>, depth: usize)
    requires
        depth == 0 || cached.len() <= depth,
        cached.len() > 0,
    ensures
        released(cached.drop_last(), depth, cached.last()) == cached,
{
    assert(cached.drop_last().push(cached.last()) =~= cached);
}

/// Giving a value back keeps a pool within its depth (when the depth is not 0).
pub proof fn law_release_keeps_depth<T>(cached: Seq<T>, depth: usize, v: T)
    requires
        depth == 0 || cached.len() <= depth,
    ensures
        depth == 0 || released(cached, depth, v).len() <= depth,
{
}

/// Setting a positive depth leaves the pool within it.
pub proof fn law_trim_within_depth<T>(cached: Seq<T>, depth: usize)
    requires
        depth > 0,
    ensures
        trimmed(cached, depth).len() <= depth,
{
}

/// A value given back to a pool with no room is dropped: the pool keeps
/// exactly the values it held, in the same order.
pub proof fn law_release_when_full<T>(cached: Seq<T>, depth: usize, v: T)
    requires
        depth > 0,
        cached.len() >= depth,
    ensures
        released(cached, depth, v) == cached,
{
}

/// A value given back to a pool with room is added after the values it
/// already holds, which stay as they were.
pub proof fn law_release_with_room<T>(cached: Seq<T>, depth: usize, v: T)
    requires
        depth == 0 || cached.len() < depth,
    ensures
        released(cached, depth, v).len() == cached.len() + 1,
        forall|i: int| 0 <= i < cached.len() ==> released(cached, depth, v)[i] == cached[i],
        released(cached, depth, v)[cached.len() as int] == v,
{
}

/// Setting a depth that the pool already fits (or no bound) drops nothing.
pub proof fn law_trim_when_fitting<T>(cached: Seq<T>, depth: usize)
    requires
        depth == 0 || cached.len() <= depth,
    ensures
        trimmed(cached, depth) == cached,
{
}

/// Setting a positive depth below the pool's size keeps exactly the first
/// `depth` values, in order.
pub proof fn law_trim_keeps_first<T>(cached: Seq<T>, depth: usize)
    requires
        depth > 0,
        cached.len() > depth,
    ensures
        trimmed(cached, depth).len() == depth,
        forall|i: int| 0 <= i < depth ==> trimmed(cached, depth)[i] == cached[i],
{
}

} // verus!
