pub mod foundation;
pub mod game_kit;
pub mod libsqlite3;
pub mod libxml2;
pub mod opengles;
pub mod security;
pub mod system_configuration;
pub mod xml_parser;
pub mod xml_tree;
pub mod xml_state;
pub mod xml_doc;
