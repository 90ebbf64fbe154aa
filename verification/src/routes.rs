use vstd::prelude::*;
use crate::entity_type::str_equal;

verus! {

/// What the web front end asks for.
#[derive(Clone, Copy, PartialEq, Eq, Structural, Debug)]
pub enum Route {
    /// `GET /sim.json`: the current state of the simulation.
    Simulation,
    /// `GET /settings.json`: the simulation's settings.
    Settings,
    /// `GET /reload_settings`: read the settings again.
    ReloadSettings,
    /// `GET /save`: save the simulation.
    Save,
    /// Any other `GET`: a file of the front end.
    File,
    /// Any other method.
    NotFound,
}

pub open spec fn sim_json_path() -> Seq<char> {
    seq!['/', 's', 'i', 'm', '.', 'j', 's', 'o', 'n']
}

pub open spec fn settings_json_path() -> Seq<char> {
    seq!['/', 's', 'e', 't', 't', 'i', 'n', 'g', 's', '.', 'j', 's', 'o', 'n']
}

pub open spec fn reload_settings_path() -> Seq<char> {
    seq!['/', 'r', 'e', 'l', 'o', 'a', 'd', '_', 's', 'e', 't', 't', 'i', 'n', 'g', 's']
}

pub open spec fn save_path() -> Seq<char> {
    seq!['/', 's', 'a', 'v', 'e']
}

/// The route of a request, by whether it is a `GET` and by its path.
pub open spec fn route_of(is_get: bool, path: Seq<char>) -> Route {
    if !is_get {
        Route::NotFound
    } else if path == sim_json_path() {
        Route::Simulation
    } else if path == settings_json_path() {
        Route::Settings
    } else if path == reload_settings_path() {
        Route::ReloadSettings
    } else if path == save_path() {
        Route::Save
    } else {
        Route::File
    }
}

/// Only `GET` requests are served, each named path by its own route and any
/// other path as a file; every other method is answered "not found".
pub proof fn lemma_routes(is_get: bool, path: Seq<char>)
    ensures
        !is_get ==> route_of(is_get, path) == Route::NotFound,
        is_get ==> route_of(is_get, path) != Route::NotFound,
        is_get ==> (route_of(is_get, path) == Route::Simulation <==> path == sim_json_path()),
        is_get ==> (route_of(is_get, path) == Route::Settings <==> path == settings_json_path()),
        is_get ==> (route_of(is_get, path) == Route::ReloadSettings <==> path
            == reload_settings_path()),
        is_get ==> (route_of(is_get, path) == Route::Save <==> path == save_path()),
{
    assert(sim_json_path() != settings_json_path()) by {
        assert(sim_json_path().len() != settings_json_path().len());
    }
    assert(sim_json_path() != reload_settings_path()) by {
        assert(sim_json_path().len() != reload_settings_path().len());
    }
    assert(sim_json_path() != save_path()) by {
        assert(sim_json_path().len() != save_path().len());
    }
    assert(settings_json_path() != reload_settings_path()) by {
        assert(settings_json_path().len() != reload_settings_path().len());
    }
    assert(settings_json_path() != save_path()) by {
        assert(settings_json_path().len() != save_path().len());
    }
    assert(reload_settings_path() != save_path()) by {
        assert(reload_settings_path().len() != save_path().len());
    }
}

/// Routes a request of the front end.
pub fn route(is_get: bool, path: &str) -> (r: Route)
    ensures
        r == route_of(is_get, path@),
        !is_get ==> r == Route::NotFound,
        is_get ==> (r == Route::Simulation <==> path@ == seq!['/', 's', 'i', 'm', '.', 'j', 's', 'o', 'n']),
        is_get ==> (r == Route::Settings <==> path@ == seq![
            '/', 's', 'e', 't', 't', 'i', 'n', 'g', 's', '.', 'j', 's', 'o', 'n',
        ]),
        is_get ==> (r == Route::ReloadSettings <==> path@ == seq![
            '/', 'r', 'e', 'l', 'o', 'a', 'd', '_', 's', 'e', 't', 't', 'i', 'n', 'g', 's',
        ]),
        is_get ==> (r == Route::Save <==> path@ == seq!['/', 's', 'a', 'v', 'e']),
        is_get ==> r != Route::NotFound,
{
    proof {
        reveal_strlit("/sim.json");
        reveal_strlit("/settings.json");
        reveal_strlit("/reload_settings");
        reveal_strlit("/save");
        assert("/sim.json"@ =~= sim_json_path());
        assert("/settings.json"@ =~= settings_json_path());
        assert("/reload_settings"@ =~= reload_settings_path());
        assert("/save"@ =~= save_path());
        lemma_routes(is_get, path@);
    }
    if !is_get {
        Route::NotFound
    } else if str_equal(path, "/sim.json") {
        Route::Simulation
    } else if str_equal(path, "/settings.json") {
        Route::Settings
    } else if str_equal(path, "/reload_settings") {
        Route::ReloadSettings
    } else if str_equal(path, "/save") {
        Route::Save
    } else {
        Route::File
    }
}

} // verus!
