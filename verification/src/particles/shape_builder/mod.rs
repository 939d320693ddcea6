pub mod adjacent_sticks;
