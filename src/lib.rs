//! A small scene-graph renderer core: an arena scene graph with world-transform
//! propagation and draw ordering, the held-key input state, a free-fly camera
//! pose driven by those keys, and the decisions of the window-event loop.
pub mod camera;
pub mod control;
pub mod input;
pub mod scene;
