use predator_prey::resources::{
    default_settings_path, default_settings_source_path, http_file_path, index_file_path,
    settings_path, simulation_dir, simulation_file_path,
};
use predator_prey::routes::{route, Route};

#[test]
fn named_routes() {
    assert_eq!(route(true, "/sim.json"), Route::Simulation);
    assert_eq!(route(true, "/settings.json"), Route::Settings);
    assert_eq!(route(true, "/reload_settings"), Route::ReloadSettings);
    assert_eq!(route(true, "/save"), Route::Save);
}

#[test]
fn other_get_is_a_file() {
    assert_eq!(route(true, "/index.html"), Route::File);
    assert_eq!(route(true, "/"), Route::File);
    assert_eq!(route(true, "/save/"), Route::File);
}

#[test]
fn other_methods_are_not_found() {
    assert_eq!(route(false, "/sim.json"), Route::NotFound);
    assert_eq!(route(false, "/index.html"), Route::NotFound);
}

#[test]
fn resource_paths() {
    assert_eq!(settings_path("a"), "resources/simulations/a/settings.json");
    assert_eq!(default_settings_path(), "resources/default_settings.json");
    assert_eq!(simulation_dir("b"), "resources/simulations/b");
    assert_eq!(simulation_file_path("b"), "resources/simulations/b/simulation.json");
    assert_eq!(default_settings_source_path(), "resources//default_settings.json");
    assert_eq!(http_file_path("/app.js"), "resources/http/app.js");
    assert_eq!(index_file_path("resources/http/"), "resources/http//index.html");
}
