# iced_router

Screen routing for iced applications, with its rules of navigation proved
in Verus.

- `src/` is the verified library. `History` is a bounded history of visited
  screens (stack or switch navigation, a limit, a root that survives it).
  `Router` keeps the live screens with their handles, builds screens from
  routes, runs the `on_exit` and `on_enter` hooks when the current screen
  changes, and drops the route-built screens whose id left the history.
  `Builder` collects screens and routes and builds a router. The router is
  generic over the screen type and over what a hook hands back, so it holds
  no iced value. What the router hands back is a list of (handle, hook,
  task) triples. A screen may describe what each hook hands back and does
  to the screen and the shared state, and a route what it builds, through
  spec members (`enters`, `exits`, `answers`, `builds`); the router's
  contracts say which hooks run, in what order, and what they leave. `src/laws.rs` states and proves the
  laws of navigation.
- `app/` is the iced side: the `Screen` trait with views and subscriptions,
  type-erased messages, and a `Router` that turns the hooks' results into
  iced tasks.
- `tests/` runs the library on concrete screens.
