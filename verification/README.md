# Tracker

A time tracker: tasks are timed, subtasks are shared between tasks, and reports
add up what was recorded. The rules are a library verified with Verus; the desktop
application around it holds the database file, GitHub, the credential store and the
window.

## The library, `src/`

- `store`: the tables, what they keep to between requests, and the steps that
  requests are made of.
- `timers`, `tasks`, `subtasks`, `entries`: the requests.
- `reports`, `summaries`: the entries of a period and the time they add up to.
- `schema`, `migration`: which version a database has, and how older tables become
  the present ones.
- `changes`: which rows have to be written after a request.
- `github`, `tray`: references and searches on GitHub, and what the tray shows.
- `calendar`, `clock`, `written_time`: days, instants and their written form.
- `text`, `names`, `number`, `lists`, `records`, `error`: what the others build on.
- `timer_laws`, `subtask_laws`, `report_laws`: what holds of the requests together.

Every table has a mathematical model, and every request is a function on models:
its contract says that the tables afterwards and the answer are those that the
function gives. A request that is refused for what it asks changes nothing. A request that needs
the time comes twice: once with the instant as an argument, and once reading the
clock.

Text that chrono reads or writes, the lowercase form of names beyond ASCII and the
machine's clock and time zone are taken on trust; each such item says in its
comment what it relies on.

## The application, `app/`

`database` reads the tables, hands them to the library and writes down the rows
that changed, in one transaction. `session` serves requests, `online` asks GitHub
and the credential store, `wire` turns records into what the window understands,
and `desktop` is the window with its menu and tray.

## The tests, `tests/`

Scenarios for every request, and in `sqlite` the library's tables against the same
tables in SQLite.
