# rlib

Two small verified libraries.

- `cache`: an object cache. `cache_init` makes a `CacheControl` from a depth
  and a factory; `get` hands out the last value kept in the pool, or a new one
  from the factory; `Cache::release` gives a value back to the cache that
  handed it out (a ghost identity ties the two), keeping it when the pool
  has room. The contracts state the pool's contents and the counters
  after each call, and the laws state that the pool stays within its depth
  and that a value given back is the next one handed out.
- `config`: a tree of values keyed by names over `a`-`z`, `A`-`Z`, `0`-`9`,
  `.`, `_`, `-`. `config_model` is its mathematical model (each level a
  sequence of entries), `config` the implementation on linked lists, and
  `config_laws` what holds of every tree and every put.

`app/` holds what is not verified: handles that give their value back when
dropped (shared through `Rc<RefCell<..>>`), and printing.
