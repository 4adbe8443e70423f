pub mod osu;
