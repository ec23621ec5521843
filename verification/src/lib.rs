pub mod barrels;
pub mod board;
pub mod cells;
pub mod columns;
pub mod complex;
pub mod engraving;
pub mod flaps;
pub mod flight;
pub mod garden;
pub mod geometry;
pub mod grid;
pub mod knots;
pub mod maze;
pub mod mentors;
pub mod outcomes;
pub mod plants;
pub mod ranking;
pub mod reach;
pub mod scaffold;
pub mod sizes;
pub mod spells;
pub mod swarm;
pub mod sword;
pub mod text;
pub mod wall;
pub mod words;
