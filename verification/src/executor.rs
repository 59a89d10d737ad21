pub mod symbolic_setting;
