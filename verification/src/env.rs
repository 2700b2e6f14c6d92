mod env;
mod obstacle;

pub use env::create_example_2d_env;
pub use env::Env;
pub use obstacle::Obstacle;
pub use obstacle::Obstacle::CircleObstacle;
pub use obstacle::Obstacle::RectObstacle;
