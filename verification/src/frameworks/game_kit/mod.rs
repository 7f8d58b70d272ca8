pub mod gk_local_player;
